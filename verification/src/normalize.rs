//! The Chomsky-Normal-Form pipeline: a fresh start rule, terminals moved
//! into singleton rules, long definitions binarized, null productions
//! eliminated, and unit productions inlined.

use vstd::prelude::*;
use crate::grammar::{Grammar, Token, TokenModel, Definition, Rule, def_view, rule_view, rules_view,
    wf_rules, terminals_nonempty, cnf_shaped, copy_def, copy_token, copy_rule, g_derives,
    lemma_fresh_start_language};
use crate::simplify::{strictly_sorted_rule, lemma_filter_subset};

verus! {

/// No definition of any rule references rule `x`.
pub open spec fn no_refs_to(rules: Seq<Seq<Seq<TokenModel>>>, x: int) -> bool {
    forall|r: int, d: int, t: int|
        0 <= r < rules.len() && 0 <= d < rules[r].len() && 0 <= t < rules[r][d].len()
            ==> (#[trigger] rules[r][d][t]) != TokenModel::NT(x)
}

/// Every definition has at most two tokens, and two-token definitions
/// hold rule references only.
pub open spec fn bin_shaped(rules: Seq<Seq<Seq<TokenModel>>>) -> bool {
    forall|r: int, d: int|
        0 <= r < rules.len() && 0 <= d < rules[r].len() ==> {
            let def = #[trigger] rules[r][d];
            &&& def.len() <= 2
            &&& (def.len() == 2 ==> def[0] is NT && def[1] is NT)
        }
}

/// Empty definitions stand at the start rule only.
pub open spec fn empties_only_at(rules: Seq<Seq<Seq<TokenModel>>>, start: int) -> bool {
    forall|r: int, d: int|
        0 <= r < rules.len() && 0 <= d < rules[r].len() && (#[trigger] rules[r][d]).len() == 0
            ==> r == start
}

/// What terminal extraction does at one position of a long definition:
/// a rule reference stays put, and a terminal is replaced by a
/// reference to a fresh rule holding exactly that terminal.
pub open spec fn term_extracted(
    old_rules: Seq<Seq<Seq<TokenModel>>>,
    new_rules: Seq<Seq<Seq<TokenModel>>>,
    r: int,
    d: int,
    t: int,
) -> bool {
    &&& (old_rules[r][d][t] is NT ==> new_rules[r][d][t] == old_rules[r][d][t])
    &&& (old_rules[r][d][t] is T ==> new_rules[r][d][t] is NT && old_rules.len()
        <= new_rules[r][d][t]->NT_0 < new_rules.len()
        && new_rules[new_rules[r][d][t]->NT_0] == seq![seq![old_rules[r][d][t]]])
}

/// Rule `c` heads the right-fold chain for the tokens of `old_def`
/// from position `i` on: the last two tokens share one fresh rule, and
/// each earlier token is paired with the chain rule just below, so the
/// chain occupies consecutive indices.
pub open spec fn bin_chain(
    old_def: Seq<TokenModel>,
    i: int,
    c: int,
    rules: Seq<Seq<Seq<TokenModel>>>,
    lo: int,
) -> bool
    decreases old_def.len() - i,
{
    if i < 0 || i > old_def.len() - 2 {
        false
    } else if i == old_def.len() - 2 {
        lo <= c < rules.len() && rules[c] == seq![seq![old_def[i], old_def[i + 1]]]
    } else {
        lo <= c < rules.len() && rules[c] == seq![
            seq![old_def[i], TokenModel::NT(c - 1)],
        ] && bin_chain(old_def, i + 1, c - 1, rules, lo)
    }
}

/// A chain survives growing the rule table, as long as the rules from
/// `lo` on keep their places.
pub proof fn lemma_bin_chain_stable(
    old_def: Seq<TokenModel>,
    i: int,
    c: int,
    r1: Seq<Seq<Seq<TokenModel>>>,
    r2: Seq<Seq<Seq<TokenModel>>>,
    lo: int,
)
    requires
        bin_chain(old_def, i, c, r1, lo),
        r2.len() >= r1.len(),
        forall|m: int| lo <= m < r1.len() ==> #[trigger] r2[m] == r1[m],
    ensures
        bin_chain(old_def, i, c, r2, lo),
    decreases old_def.len() - i,
{
    if i == old_def.len() - 2 {
        assert(r2[c] == r1[c]);
    } else {
        assert(r2[c] == r1[c]);
        lemma_bin_chain_stable(old_def, i + 1, c - 1, r1, r2, lo);
    }
}

/// Every token of `d2` already stands somewhere in `d`.
pub open spec fn tokens_from(d2: Seq<TokenModel>, d: Seq<TokenModel>) -> bool {
    forall|i: int| 0 <= i < d2.len() ==> exists|j: int| 0 <= j < d.len() && (#[trigger] d2[i]) == d[j]
}

/// A rule can derive the empty string within derivation depth `k`.
pub open spec fn nullable_k(rules: Seq<Seq<Seq<TokenModel>>>, nt: int, k: nat) -> bool
    decreases k, 1int,
{
    k > 0 && 0 <= nt < rules.len() && exists|d: int|
        0 <= d < rules[nt].len() && def_nullable(rules, #[trigger] rules[nt][d], k)
}

/// Every token of the alternative is a rule reference that can derive
/// the empty string within depth `k - 1`.
pub open spec fn def_nullable(rules: Seq<Seq<Seq<TokenModel>>>, d: Seq<TokenModel>, k: nat) -> bool
    decreases k, 0int,
{
    forall|t: int|
        0 <= t < d.len() ==> (#[trigger] d[t]) is NT && k > 0 && nullable_k(
            rules,
            d[t]->NT_0,
            (k - 1) as nat,
        )
}

/// A rule can derive the empty string: some alternative's tokens are
/// all nullable rule references (in particular, an empty alternative).
pub open spec fn nullable(rules: Seq<Seq<Seq<TokenModel>>>, nt: int) -> bool {
    exists|k: nat| nullable_k(rules, nt, k)
}

/// Nullability at a depth bound holds at any larger bound.
pub proof fn lemma_nullable_mono(rules: Seq<Seq<Seq<TokenModel>>>, nt: int, k1: nat, k2: nat)
    requires
        nullable_k(rules, nt, k1),
        k1 <= k2,
    ensures
        nullable_k(rules, nt, k2),
    decreases k1,
{
    let d = choose|d: int|
        0 <= d < rules[nt].len() && def_nullable(rules, #[trigger] rules[nt][d], k1);
    assert forall|t: int|
        0 <= t < rules[nt][d].len() implies (#[trigger] rules[nt][d][t]) is NT && k2 > 0
        && nullable_k(rules, rules[nt][d][t]->NT_0, (k2 - 1) as nat) by {
        assert(rules[nt][d][t] is NT && k1 > 0 && nullable_k(
            rules,
            rules[nt][d][t]->NT_0,
            (k1 - 1) as nat,
        ));
        lemma_nullable_mono(rules, rules[nt][d][t]->NT_0, (k1 - 1) as nat, (k2 - 1) as nat);
    }
    assert(def_nullable(rules, rules[nt][d], k2));
}

/// Every token of the alternative is a reference the mark table holds.
pub open spec fn def_all_marked(
    rules: Seq<Seq<Seq<TokenModel>>>,
    marks: Seq<bool>,
    d: Seq<TokenModel>,
) -> bool {
    forall|t: int|
        0 <= t < d.len() ==> (#[trigger] d[t]) is NT && 0 <= d[t]->NT_0 < marks.len()
            && marks[d[t]->NT_0]
}

/// The mark table lets rule `i` take one nullability step.
pub open spec fn marks_step(rules: Seq<Seq<Seq<TokenModel>>>, marks: Seq<bool>, i: int) -> bool {
    exists|d: int| 0 <= d < rules[i].len() && def_all_marked(rules, marks, #[trigger] rules[i][d])
}

/// `x` arises from the alternative `def` by leaving out some of its
/// nullable rule references (none, the first, the last, or both ends
/// of a two-token alternative — which, for alternatives of at most two
/// tokens, is every combination).
pub open spec fn variant_of(
    rules0: Seq<Seq<Seq<TokenModel>>>,
    def: Seq<TokenModel>,
    x: Seq<TokenModel>,
) -> bool {
    ||| x == def
    ||| (def.len() >= 1 && def[0] is NT && nullable(rules0, def[0]->NT_0) && x == def.drop_first())
    ||| (def.len() >= 1 && def.last() is NT && nullable(rules0, def.last()->NT_0) && x
        == def.drop_last())
    ||| (def.len() == 2 && def[0] is NT && def[1] is NT && nullable(rules0, def[0]->NT_0)
        && nullable(rules0, def[1]->NT_0) && x == Seq::<TokenModel>::empty())
}

/// A variant of a Chomsky-compatible alternative keeps its shape and
/// draws its tokens from the alternative.
pub proof fn lemma_variant_shape(
    rules0: Seq<Seq<Seq<TokenModel>>>,
    def: Seq<TokenModel>,
    x: Seq<TokenModel>,
)
    requires
        variant_of(rules0, def, x),
        def.len() <= 2,
        def.len() == 2 ==> def[0] is NT && def[1] is NT,
    ensures
        x.len() <= 2,
        x.len() == 2 ==> x[0] is NT && x[1] is NT,
        tokens_from(x, def),
{
    if x == def {
        assert forall|i: int| 0 <= i < x.len() implies exists|j: int|
            0 <= j < def.len() && (#[trigger] x[i]) == def[j] by {
            assert(x[i] == def[i]);
        }
    } else if def.len() >= 1 && def[0] is NT && nullable(rules0, def[0]->NT_0) && x
        == def.drop_first() {
        assert forall|i: int| 0 <= i < x.len() implies exists|j: int|
            0 <= j < def.len() && (#[trigger] x[i]) == def[j] by {
            assert(x[i] == def[i + 1]);
        }
    } else if def.len() >= 1 && def.last() is NT && nullable(rules0, def.last()->NT_0) && x
        == def.drop_last() {
        assert forall|i: int| 0 <= i < x.len() implies exists|j: int|
            0 <= j < def.len() && (#[trigger] x[i]) == def[j] by {
            assert(x[i] == def[i]);
        }
    } else {
        assert(x.len() == 0);
    }
}

/// A sound mark table closed under the nullability step covers every
/// nullable rule.
pub proof fn lemma_closed_marks_nullable(
    rules: Seq<Seq<Seq<TokenModel>>>,
    marks: Seq<bool>,
    i: int,
    k: nat,
)
    requires
        marks.len() == rules.len(),
        forall|j: int| 0 <= j < rules.len() && !marks[j] ==> !#[trigger] marks_step(rules, marks, j),
        nullable_k(rules, i, k),
        0 <= i < rules.len(),
    ensures
        marks[i],
    decreases k,
{
    let d = choose|d: int|
        0 <= d < rules[i].len() && def_nullable(rules, #[trigger] rules[i][d], k);
    assert forall|t: int|
        0 <= t < rules[i][d].len() implies (#[trigger] rules[i][d][t]) is NT && 0 <= rules[i][d][t]->NT_0
        < marks.len() && marks[rules[i][d][t]->NT_0] by {
        assert(rules[i][d][t] is NT && k > 0 && nullable_k(
            rules,
            rules[i][d][t]->NT_0,
            (k - 1) as nat,
        ));
        lemma_closed_marks_nullable(rules, marks, rules[i][d][t]->NT_0, (k - 1) as nat);
    }
    assert(def_all_marked(rules, marks, rules[i][d]));
    if !marks[i] {
        assert(marks_step(rules, marks, i));
    }
}

/// A step over a sound mark table only reaches nullable rules, for
/// rules whose alternatives hold at most two tokens.
pub proof fn lemma_step_sound(rules: Seq<Seq<Seq<TokenModel>>>, marks: Seq<bool>, i: int)
    requires
        forall|j: int| 0 <= j < marks.len() && marks[j] ==> #[trigger] nullable(rules, j),
        marks_step(rules, marks, i),
        0 <= i < rules.len(),
        forall|dd: int| 0 <= dd < rules[i].len() ==> (#[trigger] rules[i][dd]).len() <= 2,
    ensures
        nullable(rules, i),
{
    let d = choose|d: int|
        0 <= d < rules[i].len() && def_all_marked(rules, marks, #[trigger] rules[i][d]);
    let def = rules[i][d];
    if def.len() == 0 {
        assert(def_nullable(rules, def, 1));
        assert(nullable_k(rules, i, 1));
    } else if def.len() == 1 {
        assert(def[0] is NT && marks[def[0]->NT_0]);
        assert(nullable(rules, def[0]->NT_0));
        let k1 = choose|k1: nat| nullable_k(rules, def[0]->NT_0, k1);
        assert(def_nullable(rules, def, k1 + 1)) by {
            assert forall|t: int|
                0 <= t < def.len() implies (#[trigger] def[t]) is NT && k1 + 1 > 0 && nullable_k(
                rules,
                def[t]->NT_0,
                k1,
            ) by {
                assert(t == 0);
            }
        }
        assert(nullable_k(rules, i, k1 + 1));
    } else {
        assert(def[0] is NT && marks[def[0]->NT_0]);
        assert(def[1] is NT && marks[def[1]->NT_0]);
        assert(nullable(rules, def[0]->NT_0));
        assert(nullable(rules, def[1]->NT_0));
        let k1 = choose|k1: nat| nullable_k(rules, def[0]->NT_0, k1);
        let k2 = choose|k2: nat| nullable_k(rules, def[1]->NT_0, k2);
        let kk: nat = if k1 > k2 {
            k1
        } else {
            k2
        };
        lemma_nullable_mono(rules, def[0]->NT_0, k1, kk);
        lemma_nullable_mono(rules, def[1]->NT_0, k2, kk);
        assert(def_nullable(rules, def, kk + 1)) by {
            assert forall|t: int|
                0 <= t < def.len() implies (#[trigger] def[t]) is NT && kk + 1 > 0 && nullable_k(
                rules,
                def[t]->NT_0,
                kk,
            ) by {
                assert(t == 0 || t == 1);
            }
        }
        assert(nullable_k(rules, i, kk + 1));
    }
}

impl Grammar {
    /// Adds a fresh start rule whose single alternative references the
    /// old start, so that no rule ever references the start symbol.
    pub(crate) fn n_start(&mut self)
        requires
            old(self)@.wf(),
        ensures
            final(self)@.wf(),
            final(self)@.start == old(self)@.rules.len(),
            final(self)@.rules =~= old(self)@.rules.push(
                seq![seq![TokenModel::NT(old(self)@.start)]],
            ),
            no_refs_to(final(self)@.rules, final(self)@.start),
            terminals_nonempty(old(self)@.rules) ==> terminals_nonempty(final(self)@.rules),
            forall|w: Seq<char>| #[trigger] g_derives(final(self)@, w) == g_derives(
                old(self)@,
                w,
            ),
    {
        let mut def: Definition = Vec::new();
        def.push(Token::NT(self.start));
        let mut new_start: Rule = Vec::new();
        proof {
            assert(def_view(def) =~= seq![TokenModel::NT(old(self)@.start)]);
        }
        new_start.push(def);
        proof {
            assert(rule_view(new_start) =~= seq![seq![TokenModel::NT(old(self)@.start)]]);
        }
        let nt = self.add_rule(new_start);
        self.start = nt;
        proof {
            assert(self@.rules == old(self)@.rules.push(
                seq![seq![TokenModel::NT(old(self)@.start)]],
            ));
            assert forall|w: Seq<char>|
                #[trigger] g_derives(self@, w) == g_derives(old(self)@, w) by {
                lemma_fresh_start_language(old(self)@, self@, w);
            }
        }
    }
}

impl Grammar {
    /// Moves every terminal of a multi-token definition into a fresh
    /// singleton rule, so that long definitions hold rule references only.
    pub(crate) fn n_term(&mut self)
        requires
            old(self)@.wf(),
        ensures
            final(self)@.wf(),
            final(self)@.start == old(self)@.start,
            final(self)@.rules.len() >= old(self)@.rules.len(),
            forall|r: int, d: int|
                0 <= r < final(self)@.rules.len() && 0 <= d < final(self)@.rules[r].len()
                    && (#[trigger] final(self)@.rules[r][d]).len() >= 2
                    ==> forall|t: int|
                    0 <= t < final(self)@.rules[r][d].len()
                        ==> (#[trigger] final(self)@.rules[r][d][t]) is NT,
            forall|r: int|
                old(self)@.rules.len() <= r < final(self)@.rules.len() ==> {
                    let rule = #[trigger] final(self)@.rules[r];
                    rule.len() == 1 && rule[0].len() == 1 && rule[0][0] is T
                },
            forall|r: int|
                0 <= r < old(self)@.rules.len() ==> (#[trigger] final(self)@.rules[r]).len()
                    == old(self)@.rules[r].len(),
            forall|r: int, d: int|
                0 <= r < old(self)@.rules.len() && 0 <= d < old(self)@.rules[r].len()
                    ==> (#[trigger] final(self)@.rules[r][d]).len() == old(self)@.rules[r][d].len(),
            forall|r: int, d: int|
                0 <= r < old(self)@.rules.len() && 0 <= d < old(self)@.rules[r].len() && (
                #[trigger] old(self)@.rules[r][d]).len() < 2 ==> final(self)@.rules[r][d]
                    == old(self)@.rules[r][d],
            forall|r: int, d: int, t: int|
                0 <= r < old(self)@.rules.len() && 0 <= d < old(self)@.rules[r].len() && 0 <= t
                    < old(self)@.rules[r][d].len() && old(self)@.rules[r][d].len() >= 2
                    ==> #[trigger] term_extracted(old(self)@.rules, final(self)@.rules, r, d, t),
            terminals_nonempty(old(self)@.rules) ==> terminals_nonempty(final(self)@.rules),
            no_refs_to(old(self)@.rules, old(self)@.start) ==> no_refs_to(
                final(self)@.rules,
                final(self)@.start,
            ),
    {
        let ghost g0 = self@;
        let ghost nr = no_refs_to(g0.rules, g0.start);
        let ghost ne = terminals_nonempty(g0.rules);
        let n = self.rules.len();
        let mut r: usize = 0;
        while r < n
            invariant
                r <= n,
                n as int <= self.rules@.len(),
                self.start == old(self).start,
                g0 == old(self)@,
                g0.wf(),
                g0.rules.len() == n as int,
                nr == no_refs_to(g0.rules, g0.start),
                ne == terminals_nonempty(g0.rules),
                // rules not yet processed are unchanged
                forall|k: int|
                    r as int <= k < n ==> rules_view(self.rules@)[k] == g0.rules[k],
                forall|k: int|
                    0 <= k < r ==> (#[trigger] rules_view(self.rules@)[k]).len()
                        == g0.rules[k].len(),
                // processed rules keep their definition count and lengths
                forall|k: int, d: int|
                    0 <= k < r && 0 <= d < rules_view(self.rules@)[k].len() ==> {
                        let def = #[trigger] rules_view(self.rules@)[k][d];
                        &&& rules_view(self.rules@)[k].len() == g0.rules[k].len()
                        &&& d < g0.rules[k].len()
                        &&& def.len() == g0.rules[k][d].len()
                        &&& (def.len() >= 2 ==> forall|t: int|
                            0 <= t < def.len() ==> (#[trigger] def[t]) is NT)
                        &&& (def.len() < 2 ==> def == g0.rules[k][d])
                        &&& (forall|t: int|
                            0 <= t < def.len() && (#[trigger] def[t]) is T ==> def[t]
                                == g0.rules[k][d][t])
                        &&& (forall|t: int|
                            0 <= t < def.len() && (#[trigger] def[t]) is NT ==> 0 <= def[t]->NT_0
                                < rules_view(self.rules@).len())
                        &&& (nr ==> forall|t: int|
                            0 <= t < def.len() ==> (#[trigger] def[t]) != TokenModel::NT(g0.start))
                    },
                // fresh rules are singleton terminal rules taken from the input
                forall|k: int|
                    n as int <= k < rules_view(self.rules@).len() ==> {
                        let rule = #[trigger] rules_view(self.rules@)[k];
                        rule.len() == 1 && rule[0].len() == 1 && rule[0][0] is T && (ne
                            ==> rule[0][0]->T_0.len() > 0)
                    },
                forall|k: int, d: int, t: int|
                    0 <= k < r && 0 <= d < g0.rules[k].len() && 0 <= t < g0.rules[k][d].len()
                        && g0.rules[k][d].len() >= 2 ==> #[trigger] term_extracted(
                        g0.rules,
                        rules_view(self.rules@),
                        k,
                        d,
                        t,
                    ),
            decreases n - r,
        {
            let dlen = self.rules[r].len();
            proof {
                assert(rules_view(self.rules@)[r as int] == g0.rules[r as int]);
            }
            let mut new_rule: Rule = Vec::new();
            let mut d: usize = 0;
            while d < dlen
                invariant
                    d <= dlen,
                    r < n,
                    n as int <= self.rules@.len(),
                    self.start == old(self).start,
                    g0 == old(self)@,
                    g0.wf(),
                    g0.rules.len() == n as int,
                    nr == no_refs_to(g0.rules, g0.start),
                    ne == terminals_nonempty(g0.rules),
                    dlen as int == g0.rules[r as int].len(),
                    forall|k: int|
                        r as int <= k < n ==> rules_view(self.rules@)[k] == g0.rules[k],
                    forall|k: int|
                        0 <= k < r ==> (#[trigger] rules_view(self.rules@)[k]).len()
                            == g0.rules[k].len(),
                    forall|k: int, d2: int|
                        0 <= k < r && 0 <= d2 < rules_view(self.rules@)[k].len() ==> {
                            let def = #[trigger] rules_view(self.rules@)[k][d2];
                            &&& rules_view(self.rules@)[k].len() == g0.rules[k].len()
                            &&& d2 < g0.rules[k].len()
                            &&& def.len() == g0.rules[k][d2].len()
                            &&& (def.len() >= 2 ==> forall|t: int|
                                0 <= t < def.len() ==> (#[trigger] def[t]) is NT)
                            &&& (def.len() < 2 ==> def == g0.rules[k][d2])
                            &&& (forall|t: int|
                                0 <= t < def.len() && (#[trigger] def[t]) is T ==> def[t]
                                    == g0.rules[k][d2][t])
                            &&& (forall|t: int|
                                0 <= t < def.len() && (#[trigger] def[t]) is NT ==> 0 <= def[t]->NT_0
                                    < rules_view(self.rules@).len())
                            &&& (nr ==> forall|t: int|
                                0 <= t < def.len() ==> (#[trigger] def[t]) != TokenModel::NT(
                                    g0.start,
                                ))
                        },
                    forall|k: int|
                        n as int <= k < rules_view(self.rules@).len() ==> {
                            let rule = #[trigger] rules_view(self.rules@)[k];
                            rule.len() == 1 && rule[0].len() == 1 && rule[0][0] is T && (ne
                                ==> rule[0][0]->T_0.len() > 0)
                        },
                    forall|k: int, d2: int, t: int|
                        0 <= k < r && 0 <= d2 < g0.rules[k].len() && 0 <= t
                            < g0.rules[k][d2].len() && g0.rules[k][d2].len() >= 2
                            ==> #[trigger] term_extracted(
                            g0.rules,
                            rules_view(self.rules@),
                            k,
                            d2,
                            t,
                        ),
                    forall|d2: int, t: int|
                        0 <= d2 < d && 0 <= t < g0.rules[r as int][d2].len()
                            && g0.rules[r as int][d2].len() >= 2 ==> {
                            let otk = #[trigger] g0.rules[r as int][d2][t];
                            let ntk = def_view(new_rule@[d2])[t];
                            &&& (otk is NT ==> ntk == otk)
                            &&& (otk is T ==> ntk is NT && n as int <= ntk->NT_0 < rules_view(
                                self.rules@,
                            ).len() && rules_view(self.rules@)[ntk->NT_0] == seq![seq![otk]])
                        },
                    new_rule@.len() == d as int,
                    forall|d2: int| 0 <= d2 < d ==> {
                        let def = #[trigger] def_view(new_rule@[d2]);
                        &&& def.len() == g0.rules[r as int][d2].len()
                        &&& (def.len() >= 2 ==> forall|t: int|
                            0 <= t < def.len() ==> (#[trigger] def[t]) is NT)
                        &&& (def.len() < 2 ==> def == g0.rules[r as int][d2])
                        &&& (forall|t: int|
                            0 <= t < def.len() && (#[trigger] def[t]) is T ==> def[t]
                                == g0.rules[r as int][d2][t])
                        &&& (forall|t: int|
                            0 <= t < def.len() && (#[trigger] def[t]) is NT ==> 0 <= def[t]->NT_0
                                < rules_view(self.rules@).len())
                        &&& (nr ==> forall|t: int|
                            0 <= t < def.len() ==> (#[trigger] def[t]) != TokenModel::NT(g0.start))
                    },
                decreases dlen - d,
            {
                let def = copy_def(&self.rules[r][d]);
                proof {
                    assert(rules_view(self.rules@)[r as int] == g0.rules[r as int]);
                    assert(rule_view(self.rules@[r as int])[d as int] == def_view(
                        self.rules@[r as int]@[d as int],
                    ));
                    assert(def_view(def) == g0.rules[r as int][d as int]);
                }
                if def.len() < 2 {
                    new_rule.push(def);
                } else {
                    // the new definition mirrors the old one position by
                    // position, with terminals moved into fresh rules
                    let ghost dv = def_view(def);
                    let ghost len0 = rules_view(self.rules@).len();
                    let mut new_def: Definition = Vec::new();
                    let mut t: usize = 0;
                    while t < def.len()
                        invariant
                            t <= def.len(),
                            rules_view(self.rules@).len() >= len0,
                            r < n,
                            n as int <= self.rules@.len(),
                            self.start == old(self).start,
                            g0 == old(self)@,
                            g0.wf(),
                            g0.rules.len() == n as int,
                            nr == no_refs_to(g0.rules, g0.start),
                            ne == terminals_nonempty(g0.rules),
                            0 <= (d as int) < g0.rules[r as int].len(),
                            dv == def_view(def),
                            dv == g0.rules[r as int][d as int],
                            dv.len() == def@.len(),
                            forall|k: int|
                                r as int <= k < n ==> rules_view(self.rules@)[k] == g0.rules[k],
                            forall|k: int|
                                0 <= k < r ==> (#[trigger] rules_view(self.rules@)[k]).len()
                                    == g0.rules[k].len(),
                            forall|k: int, d2: int, t2: int|
                                0 <= k < r && 0 <= d2 < g0.rules[k].len() && 0 <= t2
                                    < g0.rules[k][d2].len() && g0.rules[k][d2].len() >= 2
                                    ==> #[trigger] term_extracted(
                                    g0.rules,
                                    rules_view(self.rules@),
                                    k,
                                    d2,
                                    t2,
                                ),
                            forall|d2: int, t2: int|
                                0 <= d2 < d && 0 <= t2 < g0.rules[r as int][d2].len()
                                    && g0.rules[r as int][d2].len() >= 2 ==> {
                                    let otk = #[trigger] g0.rules[r as int][d2][t2];
                                    let ntk = def_view(new_rule@[d2])[t2];
                                    &&& (otk is NT ==> ntk == otk)
                                    &&& (otk is T ==> ntk is NT && n as int <= ntk->NT_0
                                        < rules_view(self.rules@).len() && rules_view(
                                        self.rules@,
                                    )[ntk->NT_0] == seq![seq![otk]])
                                },
                            forall|k: int, d2: int|
                                0 <= k < r && 0 <= d2 < rules_view(self.rules@)[k].len() ==> {
                                    let kdef = #[trigger] rules_view(self.rules@)[k][d2];
                                    &&& rules_view(self.rules@)[k].len() == g0.rules[k].len()
                                    &&& d2 < g0.rules[k].len()
                                    &&& kdef.len() == g0.rules[k][d2].len()
                                    &&& (kdef.len() >= 2 ==> forall|t2: int|
                                        0 <= t2 < kdef.len() ==> (#[trigger] kdef[t2]) is NT)
                                    &&& (kdef.len() < 2 ==> kdef == g0.rules[k][d2])
                                    &&& (forall|t2: int|
                                        0 <= t2 < kdef.len() && (#[trigger] kdef[t2]) is T
                                            ==> kdef[t2] == g0.rules[k][d2][t2])
                                    &&& (forall|t2: int|
                                        0 <= t2 < kdef.len() && (#[trigger] kdef[t2]) is NT ==> 0
                                            <= kdef[t2]->NT_0 < rules_view(self.rules@).len())
                                    &&& (nr ==> forall|t2: int|
                                        0 <= t2 < kdef.len() ==> (#[trigger] kdef[t2])
                                            != TokenModel::NT(g0.start))
                                },
                            forall|k: int|
                                n as int <= k < rules_view(self.rules@).len() ==> {
                                    let rule = #[trigger] rules_view(self.rules@)[k];
                                    rule.len() == 1 && rule[0].len() == 1 && rule[0][0] is T && (ne
                                        ==> rule[0][0]->T_0.len() > 0)
                                },
                            new_def@.len() == t as int,
                            forall|k: int| 0 <= k < t ==> (#[trigger] new_def@[k])@ is NT,
                            forall|k: int|
                                0 <= k < t && (#[trigger] new_def@[k])@ is NT ==> 0 <= new_def@[k]@->NT_0
                                    < rules_view(self.rules@).len(),
                            nr ==> forall|k: int|
                                0 <= k < t ==> (#[trigger] new_def@[k])@ != TokenModel::NT(
                                    g0.start,
                                ),
                            forall|k: int| 0 <= k < t ==> {
                                let otk = g0.rules[r as int][d as int][k];
                                let ntk = (#[trigger] new_def@[k])@;
                                &&& (otk is NT ==> ntk == otk)
                                &&& (otk is T ==> ntk is NT && n as int <= ntk->NT_0 < rules_view(
                                    self.rules@,
                                ).len() && rules_view(self.rules@)[ntk->NT_0] == seq![seq![otk]])
                            },
                        decreases def.len() - t,
                    {
                        match &def[t] {
                            Token::NT(m) => {
                                proof {
                                    assert(dv[t as int] == TokenModel::NT(*m as int));
                                    if nr {
                                        assert(g0.rules[r as int][d as int][t as int]
                                            != TokenModel::NT(g0.start));
                                    }
                                }
                                new_def.push(Token::NT(*m));
                            },
                            Token::T(s) => {
                                proof {
                                    assert(dv[t as int] == TokenModel::T(s@));
                                    if ne {
                                        assert(g0.rules[r as int][d as int][t as int] is T);
                                        assert(s@.len() > 0);
                                    }
                                }
                                let idx = self.rules.len();
                                let mut fdef: Definition = Vec::new();
                                fdef.push(Token::T(s.clone()));
                                let mut frule: Rule = Vec::new();
                                proof {
                                    assert(def_view(fdef) =~= seq![TokenModel::T(s@)]);
                                }
                                frule.push(fdef);
                                proof {
                                    assert(rule_view(frule) =~= seq![seq![TokenModel::T(s@)]]);
                                }
                                let ghost pre = self.rules@;
                                self.rules.push(frule);
                                proof {
                                    assert(rules_view(self.rules@) =~= rules_view(pre).push(
                                        rule_view(frule),
                                    ));
                                    assert((idx as int) < rules_view(self.rules@).len());
                                    assert((idx as int) >= n);
                                    assert(g0.start < n as int);
                                    assert(rules_view(self.rules@)[idx as int] == seq![
                                        seq![TokenModel::T(s@)],
                                    ]);
                                    assert(rules_view(self.rules@)[idx as int] == seq![
                                        seq![g0.rules[r as int][d as int][t as int]],
                                    ]);
                                    // earlier correspondences survive the push:
                                    // existing entries keep their indices
                                    assert forall|k: int, d2: int, t2: int|
                                        0 <= k < r && 0 <= d2 < g0.rules[k].len() && 0 <= t2
                                            < g0.rules[k][d2].len() && g0.rules[k][d2].len() >= 2
                                            implies #[trigger] term_extracted(
                                        g0.rules,
                                        rules_view(self.rules@),
                                        k,
                                        d2,
                                        t2,
                                    ) by {
                                        assert(term_extracted(g0.rules, rules_view(pre), k, d2, t2));
                                        assert(rules_view(self.rules@)[k] == rules_view(pre)[k]);
                                        if g0.rules[k][d2][t2] is T {
                                            let m = rules_view(pre)[k][d2][t2]->NT_0;
                                            assert(rules_view(self.rules@)[m] == rules_view(
                                                pre,
                                            )[m]);
                                        }
                                    }
                                    assert forall|d2: int, t2: int|
                                        0 <= d2 < d && 0 <= t2 < g0.rules[r as int][d2].len()
                                            && g0.rules[r as int][d2].len() >= 2 implies {
                                        let otk = #[trigger] g0.rules[r as int][d2][t2];
                                        let ntk = def_view(new_rule@[d2])[t2];
                                        &&& (otk is NT ==> ntk == otk)
                                        &&& (otk is T ==> ntk is NT && n as int <= ntk->NT_0
                                            < rules_view(self.rules@).len() && rules_view(
                                            self.rules@,
                                        )[ntk->NT_0] == seq![seq![otk]])
                                    } by {
                                        let otk = g0.rules[r as int][d2][t2];
                                        let ntk = def_view(new_rule@[d2])[t2];
                                        if otk is T {
                                            assert(rules_view(self.rules@)[ntk->NT_0]
                                                == rules_view(pre)[ntk->NT_0]);
                                        }
                                    }
                                }
                                new_def.push(Token::NT(idx));
                            },
                        }
                        t += 1;
                    }
                    new_rule.push(new_def);
                }
                d += 1;
            }
            let ghost pre = self.rules@;
            self.rules.set(r, new_rule);
            proof {
                assert(rules_view(self.rules@) =~= rules_view(pre).update(
                    r as int,
                    rule_view(new_rule),
                ));
                assert forall|d2: int, t2: int|
                    0 <= d2 < g0.rules[r as int].len() && 0 <= t2 < g0.rules[r as int][d2].len()
                        && g0.rules[r as int][d2].len() >= 2 implies #[trigger] term_extracted(
                    g0.rules,
                    rules_view(self.rules@),
                    r as int,
                    d2,
                    t2,
                ) by {
                    assert(rules_view(self.rules@)[r as int] == rule_view(new_rule));
                    assert(rule_view(new_rule)[d2] == def_view(new_rule@[d2]));
                    let otk = g0.rules[r as int][d2][t2];
                    if otk is T {
                        let m = def_view(new_rule@[d2])[t2]->NT_0;
                        assert(rules_view(self.rules@)[m] == rules_view(pre)[m]);
                    }
                }
                assert forall|k: int, d2: int, t2: int|
                    0 <= k < r && 0 <= d2 < g0.rules[k].len() && 0 <= t2 < g0.rules[k][d2].len()
                        && g0.rules[k][d2].len() >= 2 implies #[trigger] term_extracted(
                    g0.rules,
                    rules_view(self.rules@),
                    k,
                    d2,
                    t2,
                ) by {
                    assert(term_extracted(g0.rules, rules_view(pre), k, d2, t2));
                    assert(rules_view(self.rules@)[k] == rules_view(pre)[k]);
                    if g0.rules[k][d2][t2] is T {
                        let m = rules_view(pre)[k][d2][t2]->NT_0;
                        assert(rules_view(self.rules@)[m] == rules_view(pre)[m]);
                    }
                }
            }
            r += 1;
        }
        proof {
            assert forall|a: int, b: int, c: int|
                0 <= a < n && 0 <= b < g0.rules[a].len() && 0 <= c < g0.rules[a][b].len()
                    && g0.rules[a][b].len() >= 2 implies #[trigger] term_extracted(
                g0.rules,
                rules_view(self.rules@),
                a,
                b,
                c,
            ) by {}
            assert forall|a: int, b: int, c: int|
                0 <= a < rules_view(self.rules@).len() && 0 <= b < rules_view(self.rules@)[a].len()
                    && 0 <= c < rules_view(self.rules@)[a][b].len() && (#[trigger] rules_view(
                    self.rules@,
                )[a][b][c]) is NT implies 0 <= rules_view(self.rules@)[a][b][c]->NT_0 < rules_view(
                self.rules@,
            ).len() by {}
            if ne {
                assert forall|a: int, b: int, c: int|
                    0 <= a < rules_view(self.rules@).len() && 0 <= b < rules_view(
                        self.rules@,
                    )[a].len() && 0 <= c < rules_view(self.rules@)[a][b].len() && (
                #[trigger] rules_view(self.rules@)[a][b][c]) is T implies rules_view(
                    self.rules@,
                )[a][b][c]->T_0.len() > 0 by {
                    if a < n {
                        assert(rules_view(self.rules@)[a][b][c] == g0.rules[a][b][c]);
                    }
                }
            }
        }
    }
}

impl Grammar {
    /// Breaks every definition of more than two tokens into a chain of
    /// fresh two-token rules, leaving the definition exactly two long.
    pub(crate) fn n_bin(&mut self)
        requires
            old(self)@.wf(),
            forall|r: int, d: int|
                0 <= r < old(self)@.rules.len() && 0 <= d < old(self)@.rules[r].len()
                    && (#[trigger] old(self)@.rules[r][d]).len() >= 2
                    ==> forall|t: int|
                    0 <= t < old(self)@.rules[r][d].len()
                        ==> (#[trigger] old(self)@.rules[r][d][t]) is NT,
        ensures
            final(self)@.wf(),
            final(self)@.start == old(self)@.start,
            final(self)@.rules.len() >= old(self)@.rules.len(),
            bin_shaped(final(self)@.rules),
            forall|r: int, d: int|
                0 <= r < final(self)@.rules.len() && 0 <= d < final(self)@.rules[r].len()
                    && (#[trigger] final(self)@.rules[r][d]).len() < 2 ==> r
                    < old(self)@.rules.len() && d < old(self)@.rules[r].len()
                    && final(self)@.rules[r][d] == old(self)@.rules[r][d],
            forall|r: int|
                0 <= r < old(self)@.rules.len() ==> (#[trigger] final(self)@.rules[r]).len()
                    == old(self)@.rules[r].len(),
            forall|r: int, d: int|
                0 <= r < old(self)@.rules.len() && 0 <= d < old(self)@.rules[r].len() ==> {
                    let odef = #[trigger] old(self)@.rules[r][d];
                    let ndef = final(self)@.rules[r][d];
                    &&& (odef.len() <= 2 ==> ndef == odef)
                    &&& (odef.len() > 2 ==> ndef.len() == 2 && ndef[0] == odef[0] && ndef[1] is NT
                        && old(self)@.rules.len() <= ndef[1]->NT_0 && bin_chain(
                        odef,
                        1,
                        ndef[1]->NT_0,
                        final(self)@.rules,
                        old(self)@.rules.len() as int,
                    ))
                },
            terminals_nonempty(old(self)@.rules) ==> terminals_nonempty(final(self)@.rules),
            no_refs_to(old(self)@.rules, old(self)@.start) ==> no_refs_to(
                final(self)@.rules,
                final(self)@.start,
            ),
    {
        let ghost g0 = self@;
        let ghost nr = no_refs_to(g0.rules, g0.start);
        let n = self.rules.len();
        let mut r: usize = 0;
        while r < n
            invariant
                r <= n,
                n as int <= self.rules@.len(),
                self.start == old(self).start,
                g0 == old(self)@,
                g0.wf(),
                g0.rules.len() == n as int,
                nr == no_refs_to(g0.rules, g0.start),
                forall|k: int, d: int|
                    0 <= k < n && 0 <= d < g0.rules[k].len() && (#[trigger] g0.rules[k][d]).len()
                        >= 2 ==> forall|t: int|
                        0 <= t < g0.rules[k][d].len() ==> (#[trigger] g0.rules[k][d][t]) is NT,
                forall|k: int|
                    r as int <= k < n ==> rules_view(self.rules@)[k] == g0.rules[k],
                forall|k: int, d: int|
                    0 <= k < r && 0 <= d < rules_view(self.rules@)[k].len() ==> {
                        let def = #[trigger] rules_view(self.rules@)[k][d];
                        &&& rules_view(self.rules@)[k].len() == g0.rules[k].len()
                        &&& d < g0.rules[k].len()
                        &&& def.len() <= 2
                        &&& (def.len() < 2 ==> def == g0.rules[k][d])
                        &&& (def.len() == 2 ==> def[0] is NT && def[1] is NT)
                        &&& (forall|t: int|
                            0 <= t < def.len() && (#[trigger] def[t]) is NT ==> 0 <= def[t]->NT_0
                                < rules_view(self.rules@).len())
                        &&& (nr ==> forall|t: int|
                            0 <= t < def.len() ==> (#[trigger] def[t]) != TokenModel::NT(g0.start))
                    },
                forall|k: int|
                0 <= k < r ==> (#[trigger] rules_view(self.rules@)[k]).len() == g0.rules[k].len(),
            forall|k: int, dd2: int|
                0 <= k < r && 0 <= dd2 < g0.rules[k].len() ==> {
                    let odef = #[trigger] g0.rules[k][dd2];
                    let ndef = rules_view(self.rules@)[k][dd2];
                    &&& (odef.len() <= 2 ==> ndef == odef)
                    &&& (odef.len() > 2 ==> ndef.len() == 2 && ndef[0] == odef[0] && ndef[1] is NT
                        && n as int <= ndef[1]->NT_0 && bin_chain(
                        odef,
                        1,
                        ndef[1]->NT_0,
                        rules_view(self.rules@),
                        n as int,
                    ))
                },
            forall|k: int|
                    n as int <= k < rules_view(self.rules@).len() ==> {
                        let rule = #[trigger] rules_view(self.rules@)[k];
                        &&& rule.len() == 1
                        &&& rule[0].len() == 2
                        &&& rule[0][0] is NT && rule[0][1] is NT
                        &&& 0 <= rule[0][0]->NT_0 < rules_view(self.rules@).len()
                        &&& 0 <= rule[0][1]->NT_0 < rules_view(self.rules@).len()
                        &&& (nr ==> rule[0][0] != TokenModel::NT(g0.start) && rule[0][1]
                            != TokenModel::NT(g0.start))
                    },
            decreases n - r,
        {
            let dlen = self.rules[r].len();
            proof {
                assert(rules_view(self.rules@)[r as int] == g0.rules[r as int]);
            }
            let mut new_rule: Rule = Vec::new();
            let mut d: usize = 0;
            while d < dlen
                invariant
                    d <= dlen,
                    r < n,
                    n as int <= self.rules@.len(),
                    self.start == old(self).start,
                    g0 == old(self)@,
                    g0.wf(),
                    g0.rules.len() == n as int,
                    nr == no_refs_to(g0.rules, g0.start),
                    dlen as int == g0.rules[r as int].len(),
                    forall|k: int, d2: int|
                        0 <= k < n && 0 <= d2 < g0.rules[k].len() && (#[trigger] g0.rules[k][d2]).len()
                            >= 2 ==> forall|t: int|
                            0 <= t < g0.rules[k][d2].len() ==> (#[trigger] g0.rules[k][d2][t]) is NT,
                    forall|k: int|
                        r as int <= k < n ==> rules_view(self.rules@)[k] == g0.rules[k],
                    forall|k: int, d2: int|
                        0 <= k < r && 0 <= d2 < rules_view(self.rules@)[k].len() ==> {
                            let def = #[trigger] rules_view(self.rules@)[k][d2];
                            &&& rules_view(self.rules@)[k].len() == g0.rules[k].len()
                            &&& d2 < g0.rules[k].len()
                            &&& def.len() <= 2
                            &&& (def.len() < 2 ==> def == g0.rules[k][d2])
                            &&& (def.len() == 2 ==> def[0] is NT && def[1] is NT)
                            &&& (forall|t: int|
                                0 <= t < def.len() && (#[trigger] def[t]) is NT ==> 0 <= def[t]->NT_0
                                    < rules_view(self.rules@).len())
                            &&& (nr ==> forall|t: int|
                                0 <= t < def.len() ==> (#[trigger] def[t]) != TokenModel::NT(
                                    g0.start,
                                ))
                        },
                    forall|k: int|
                        0 <= k < r ==> (#[trigger] rules_view(self.rules@)[k]).len() == g0.rules[k].len(),
                    forall|k: int, dd2: int|
                        0 <= k < r && 0 <= dd2 < g0.rules[k].len() ==> {
                            let odef = #[trigger] g0.rules[k][dd2];
                            let ndef = rules_view(self.rules@)[k][dd2];
                            &&& (odef.len() <= 2 ==> ndef == odef)
                            &&& (odef.len() > 2 ==> ndef.len() == 2 && ndef[0] == odef[0] && ndef[1] is NT
                                && n as int <= ndef[1]->NT_0 && bin_chain(
                                odef,
                                1,
                                ndef[1]->NT_0,
                                rules_view(self.rules@),
                                n as int,
                            ))
                        },
                    forall|k: int|
                        n as int <= k < rules_view(self.rules@).len() ==> {
                            let rule = #[trigger] rules_view(self.rules@)[k];
                            &&& rule.len() == 1
                            &&& rule[0].len() == 2
                            &&& rule[0][0] is NT && rule[0][1] is NT
                            &&& 0 <= rule[0][0]->NT_0 < rules_view(self.rules@).len()
                            &&& 0 <= rule[0][1]->NT_0 < rules_view(self.rules@).len()
                            &&& (nr ==> rule[0][0] != TokenModel::NT(g0.start) && rule[0][1]
                                != TokenModel::NT(g0.start))
                        },
                    new_rule@.len() == d as int,
                    forall|dd2: int|
                        0 <= dd2 < d ==> {
                            let odef = #[trigger] g0.rules[r as int][dd2];
                            let ndef = def_view(new_rule@[dd2]);
                            &&& (odef.len() <= 2 ==> ndef == odef)
                            &&& (odef.len() > 2 ==> ndef.len() == 2 && ndef[0] == odef[0] && ndef[1] is NT
                                && n as int <= ndef[1]->NT_0 && bin_chain(
                                odef,
                                1,
                                ndef[1]->NT_0,
                                rules_view(self.rules@),
                                n as int,
                            ))
                        },
                                        forall|d2: int| 0 <= d2 < d ==> {
                        let def = #[trigger] def_view(new_rule@[d2]);
                        &&& def.len() <= 2
                        &&& (def.len() < 2 ==> def == g0.rules[r as int][d2])
                        &&& (def.len() == 2 ==> def[0] is NT && def[1] is NT)
                        &&& (forall|t: int|
                            0 <= t < def.len() && (#[trigger] def[t]) is NT ==> 0 <= def[t]->NT_0
                                < rules_view(self.rules@).len())
                        &&& (nr ==> forall|t: int|
                            0 <= t < def.len() ==> (#[trigger] def[t]) != TokenModel::NT(g0.start))
                    },
                decreases dlen - d,
            {
                let def = copy_def(&self.rules[r][d]);
                let ghost dv = def_view(def);
                proof {
                    assert(rules_view(self.rules@)[r as int] == g0.rules[r as int]);
                    assert(rule_view(self.rules@[r as int])[d as int] == def_view(
                        self.rules@[r as int]@[d as int],
                    ));
                    assert(dv == g0.rules[r as int][d as int]);
                }
                let l = def.len();
                if l <= 2 {
                    proof {
                        if dv.len() == 2 {
                            assert(dv[0] is NT && dv[1] is NT);
                            assert(g0.wf());
                        }
                        if nr {
                            assert forall|t: int| 0 <= t < dv.len() implies (#[trigger] dv[t])
                                != TokenModel::NT(g0.start) by {
                                assert(g0.rules[r as int][d as int][t] != TokenModel::NT(g0.start));
                            }
                        }
                    }
                    new_rule.push(def);
                } else {
                    proof {
                        assert forall|t: int| 0 <= t < dv.len() implies (#[trigger] dv[t]) is NT by {
                            assert(g0.rules[r as int][d as int][t] is NT);
                        }
                        assert forall|t: int| 0 <= t < dv.len() implies 0 <= (
                        #[trigger] dv[t])->NT_0 < n as int by {
                            assert(g0.rules[r as int][d as int][t] is NT);
                        }
                        if nr {
                            assert forall|t: int| 0 <= t < dv.len() implies (#[trigger] dv[t])
                                != TokenModel::NT(g0.start) by {
                                assert(g0.rules[r as int][d as int][t] != TokenModel::NT(g0.start));
                            }
                        }
                    }
                    let mut pair: Definition = Vec::new();
                    pair.push(copy_token(&def[l - 2]));
                    pair.push(copy_token(&def[l - 1]));
                    proof {
                        assert(def_view(pair) =~= seq![dv[l - 2], dv[l - 1]]);
                    }
                    let mut prule: Rule = Vec::new();
                    prule.push(pair);
                    proof {
                        assert(rule_view(prule) =~= seq![seq![dv[l - 2], dv[l - 1]]]);
                    }
                    let ghost len0 = rules_view(self.rules@).len();
                    let mut snek = self.rules.len();
                    let ghost pre = self.rules@;
                    self.rules.push(prule);
                    proof {
                        assert(rules_view(self.rules@) =~= rules_view(pre).push(
                            seq![seq![dv[l - 2], dv[l - 1]]],
                        ));
                        assert(rules_view(self.rules@)[snek as int] == seq![
                            seq![dv[l - 2], dv[l - 1]],
                        ]);
                        assert(bin_chain(dv, l - 2, snek as int, rules_view(self.rules@), n as int));
                        assert forall|k: int, dd2: int|
                            0 <= k < r && 0 <= dd2 < g0.rules[k].len() && (#[trigger] g0.rules[k][dd2]).len() > 2
                            implies bin_chain(
                            g0.rules[k][dd2],
                            1,
                            rules_view(self.rules@)[k][dd2][1]->NT_0,
                            rules_view(self.rules@),
                            n as int,
                        ) by {
                            assert(rules_view(self.rules@)[k] == rules_view(pre)[k]);
                            lemma_bin_chain_stable(
                                g0.rules[k][dd2],
                                1,
                                rules_view(pre)[k][dd2][1]->NT_0,
                                rules_view(pre),
                                rules_view(self.rules@),
                                n as int,
                            );
                        }
                        assert forall|dd2: int|
                            0 <= dd2 < d && (#[trigger] g0.rules[r as int][dd2]).len() > 2 implies bin_chain(
                            g0.rules[r as int][dd2],
                            1,
                            def_view(new_rule@[dd2])[1]->NT_0,
                            rules_view(self.rules@),
                            n as int,
                        ) by {
                            lemma_bin_chain_stable(
                                g0.rules[r as int][dd2],
                                1,
                                def_view(new_rule@[dd2])[1]->NT_0,
                                rules_view(pre),
                                rules_view(self.rules@),
                                n as int,
                            );
                        }
                        
                    }
                    let mut i = l - 2;
                    while i > 1
                        invariant
                            1 <= i <= l - 2,
                            rules_view(self.rules@).len() >= len0,
                            l == dv.len(),
                            3 <= l <= def@.len() + 0,
                            l == def@.len(),
                            dv == def_view(def),
                            r < n,
                            n as int <= self.rules@.len(),
                            self.start == old(self).start,
                            g0 == old(self)@,
                            g0.wf(),
                            g0.rules.len() == n as int,
                            nr == no_refs_to(g0.rules, g0.start),
                            forall|t: int| 0 <= t < dv.len() ==> (#[trigger] dv[t]) is NT,
                            forall|t: int|
                                0 <= t < dv.len() ==> 0 <= (#[trigger] dv[t])->NT_0 < n as int,
                            nr ==> forall|t: int|
                                0 <= t < dv.len() ==> (#[trigger] dv[t]) != TokenModel::NT(
                                    g0.start,
                                ),
                            n <= snek,
                            (snek as int) == rules_view(self.rules@).len() - 1,
                            nr ==> snek as int != g0.start,
                            0 <= (d as int) < g0.rules[r as int].len(),
                            dv == g0.rules[r as int][d as int],
                            new_rule@.len() == d as int,
                            bin_chain(dv, i as int, snek as int, rules_view(self.rules@), n as int),
                            forall|dd2: int|
                                0 <= dd2 < d ==> {
                                    let odef = #[trigger] g0.rules[r as int][dd2];
                                    let ndef = def_view(new_rule@[dd2]);
                                    &&& (odef.len() <= 2 ==> ndef == odef)
                                    &&& (odef.len() > 2 ==> ndef.len() == 2 && ndef[0] == odef[0] && ndef[1] is NT
                                        && n as int <= ndef[1]->NT_0 && bin_chain(
                                        odef,
                                        1,
                                        ndef[1]->NT_0,
                                        rules_view(self.rules@),
                                        n as int,
                                    ))
                                },
                            
                            forall|k: int|
                                r as int <= k < n ==> rules_view(self.rules@)[k] == g0.rules[k],
                            forall|k: int, d2: int|
                                0 <= k < r && 0 <= d2 < rules_view(self.rules@)[k].len() ==> {
                                    let kdef = #[trigger] rules_view(self.rules@)[k][d2];
                                    &&& rules_view(self.rules@)[k].len() == g0.rules[k].len()
                                    &&& d2 < g0.rules[k].len()
                                    &&& kdef.len() <= 2
                                    &&& (kdef.len() < 2 ==> kdef == g0.rules[k][d2])
                                    &&& (kdef.len() == 2 ==> kdef[0] is NT && kdef[1] is NT)
                                    &&& (forall|t: int|
                                        0 <= t < kdef.len() && (#[trigger] kdef[t]) is NT ==> 0
                                            <= kdef[t]->NT_0 < rules_view(self.rules@).len())
                                    &&& (nr ==> forall|t: int|
                                        0 <= t < kdef.len() ==> (#[trigger] kdef[t])
                                            != TokenModel::NT(g0.start))
                                },
                            forall|k: int|
                                0 <= k < r ==> (#[trigger] rules_view(self.rules@)[k]).len() == g0.rules[k].len(),
                            forall|k: int, dd2: int|
                                0 <= k < r && 0 <= dd2 < g0.rules[k].len() ==> {
                                    let odef = #[trigger] g0.rules[k][dd2];
                                    let ndef = rules_view(self.rules@)[k][dd2];
                                    &&& (odef.len() <= 2 ==> ndef == odef)
                                    &&& (odef.len() > 2 ==> ndef.len() == 2 && ndef[0] == odef[0] && ndef[1] is NT
                                        && n as int <= ndef[1]->NT_0 && bin_chain(
                                        odef,
                                        1,
                                        ndef[1]->NT_0,
                                        rules_view(self.rules@),
                                        n as int,
                                    ))
                                },
                            forall|k: int|
                                n as int <= k < rules_view(self.rules@).len() ==> {
                                    let rule = #[trigger] rules_view(self.rules@)[k];
                                    &&& rule.len() == 1
                                    &&& rule[0].len() == 2
                                    &&& rule[0][0] is NT && rule[0][1] is NT
                                    &&& 0 <= rule[0][0]->NT_0 < rules_view(self.rules@).len()
                                    &&& 0 <= rule[0][1]->NT_0 < rules_view(self.rules@).len()
                                    &&& (nr ==> rule[0][0] != TokenModel::NT(g0.start) && rule[0][1]
                                        != TokenModel::NT(g0.start))
                                },
                        decreases i,
                    {
                        i -= 1;
                        let mut pair2: Definition = Vec::new();
                        pair2.push(copy_token(&def[i]));
                        pair2.push(Token::NT(snek));
                        proof {
                            assert(def_view(pair2) =~= seq![dv[i as int], TokenModel::NT(
                                snek as int,
                            )]);
                        }
                        let mut prule2: Rule = Vec::new();
                        prule2.push(pair2);
                        proof {
                            assert(rule_view(prule2) =~= seq![seq![dv[i as int], TokenModel::NT(
                                snek as int,
                            )]]);
                        }
                        let newsnek = self.rules.len();
                        let ghost pre2 = self.rules@;
                        self.rules.push(prule2);
                        proof {
                            assert(rules_view(self.rules@) =~= rules_view(pre2).push(
                                seq![seq![dv[i as int], TokenModel::NT(snek as int)]],
                            ));
                            lemma_bin_chain_stable(
                                dv,
                                i + 1,
                                snek as int,
                                rules_view(pre2),
                                rules_view(self.rules@),
                                n as int,
                            );
                            assert(newsnek as int == snek as int + 1);
                            assert(rules_view(self.rules@)[newsnek as int] == seq![
                                seq![dv[i as int], TokenModel::NT(snek as int)],
                            ]);
                            assert(bin_chain(
                                dv,
                                i as int,
                                newsnek as int,
                                rules_view(self.rules@),
                                n as int,
                            ));
                            assert forall|k: int, dd2: int|
                                0 <= k < r && 0 <= dd2 < g0.rules[k].len() && (#[trigger] g0.rules[k][dd2]).len() > 2
                                implies bin_chain(
                                g0.rules[k][dd2],
                                1,
                                rules_view(self.rules@)[k][dd2][1]->NT_0,
                                rules_view(self.rules@),
                                n as int,
                            ) by {
                                assert(rules_view(self.rules@)[k] == rules_view(pre2)[k]);
                                lemma_bin_chain_stable(
                                    g0.rules[k][dd2],
                                    1,
                                    rules_view(pre2)[k][dd2][1]->NT_0,
                                    rules_view(pre2),
                                    rules_view(self.rules@),
                                    n as int,
                                );
                            }
                            assert forall|dd2: int|
                                0 <= dd2 < d && (#[trigger] g0.rules[r as int][dd2]).len() > 2 implies bin_chain(
                                g0.rules[r as int][dd2],
                                1,
                                def_view(new_rule@[dd2])[1]->NT_0,
                                rules_view(self.rules@),
                                n as int,
                            ) by {
                                lemma_bin_chain_stable(
                                    g0.rules[r as int][dd2],
                                    1,
                                    def_view(new_rule@[dd2])[1]->NT_0,
                                    rules_view(pre2),
                                    rules_view(self.rules@),
                                    n as int,
                                );
                            }
                            
                        }
                        snek = newsnek;
                    }
                    let mut short: Definition = Vec::new();
                    short.push(copy_token(&def[0]));
                    short.push(Token::NT(snek));
                    proof {
                        assert(def_view(short) =~= seq![dv[0], TokenModel::NT(snek as int)]);
                        assert(bin_chain(dv, 1, snek as int, rules_view(self.rules@), n as int));
                    }
                    new_rule.push(short);
                }
                d += 1;
            }
            let ghost pre3 = self.rules@;
            self.rules.set(r, new_rule);
            proof {
                assert(rules_view(self.rules@) =~= rules_view(pre3).update(
                    r as int,
                    rule_view(new_rule),
                ));
                assert forall|k: int, dd2: int|
                    0 <= k < r && 0 <= dd2 < g0.rules[k].len() && (#[trigger] g0.rules[k][dd2]).len()
                        > 2 implies bin_chain(
                    g0.rules[k][dd2],
                    1,
                    rules_view(self.rules@)[k][dd2][1]->NT_0,
                    rules_view(self.rules@),
                    n as int,
                ) by {
                    assert(rules_view(self.rules@)[k] == rules_view(pre3)[k]);
                    lemma_bin_chain_stable(
                        g0.rules[k][dd2],
                        1,
                        rules_view(pre3)[k][dd2][1]->NT_0,
                        rules_view(pre3),
                        rules_view(self.rules@),
                        n as int,
                    );
                }
                assert forall|dd2: int|
                    0 <= dd2 < g0.rules[r as int].len() implies {
                    let odef = #[trigger] g0.rules[r as int][dd2];
                    let ndef = rules_view(self.rules@)[r as int][dd2];
                    &&& (odef.len() <= 2 ==> ndef == odef)
                    &&& (odef.len() > 2 ==> ndef.len() == 2 && ndef[0] == odef[0] && ndef[1] is NT
                        && n as int <= ndef[1]->NT_0 && bin_chain(
                        odef,
                        1,
                        ndef[1]->NT_0,
                        rules_view(self.rules@),
                        n as int,
                    ))
                } by {
                    assert(rules_view(self.rules@)[r as int] == rule_view(new_rule));
                    assert(rule_view(new_rule)[dd2] == def_view(new_rule@[dd2]));
                    if g0.rules[r as int][dd2].len() > 2 {
                        lemma_bin_chain_stable(
                            g0.rules[r as int][dd2],
                            1,
                            def_view(new_rule@[dd2])[1]->NT_0,
                            rules_view(pre3),
                            rules_view(self.rules@),
                            n as int,
                        );
                    }
                }
            }
            r += 1;
        }
        proof {
            if terminals_nonempty(g0.rules) {
                assert forall|a: int, b: int, c: int|
                    0 <= a < rules_view(self.rules@).len() && 0 <= b < rules_view(
                        self.rules@,
                    )[a].len() && 0 <= c < rules_view(self.rules@)[a][b].len() && (
                #[trigger] rules_view(self.rules@)[a][b][c]) is T implies rules_view(
                    self.rules@,
                )[a][b][c]->T_0.len() > 0 by {
                    if a < n {
                        assert(rules_view(self.rules@)[a][b].len() < 2);
                        assert(rules_view(self.rules@)[a][b] == g0.rules[a][b]);
                    }
                }
            }
        }
    }
}

/// Appends one alternative, extending the rule's contents by exactly
/// that alternative.
fn push_variant(combined: &mut Rule, v: Definition)
    ensures
        rule_view(*final(combined)) == rule_view(*old(combined)).push(def_view(v)),
        forall|x: Seq<TokenModel>|
            #[trigger] rule_view(*final(combined)).contains(x) <==> (rule_view(
                *old(combined),
            ).contains(x) || x == def_view(v)),
{
    let ghost c0 = rule_view(*combined);
    let ghost vv = def_view(v);
    combined.push(v);
    proof {
        assert(rule_view(*combined) =~= c0.push(vv));
        assert forall|x: Seq<TokenModel>| #[trigger] rule_view(*combined).contains(x) implies (
        c0.contains(x) || x == vv) by {
            let j = choose|j: int|
                0 <= j < rule_view(*combined).len() && rule_view(*combined)[j] == x;
            if j < c0.len() {
                assert(c0[j] == x);
            }
        }
        assert forall|x: Seq<TokenModel>| (c0.contains(x) || x == vv)
            implies #[trigger] rule_view(*combined).contains(x) by {
            if c0.contains(x) {
                let j = choose|j: int| 0 <= j < c0.len() && c0[j] == x;
                assert(rule_view(*combined)[j] == x);
            } else {
                assert(rule_view(*combined)[c0.len() as int] == x);
            }
        }
    }
}

impl Grammar {
    /// Finds every rule that can produce the empty string by a fixpoint
    /// pass, then adds, for every definition, every way of leaving such
    /// references out, and finally strips empty definitions from every
    /// rule but the start.
    pub(crate) fn n_del(&mut self)
        requires
            old(self)@.wf(),
            bin_shaped(old(self)@.rules),
        ensures
            final(self)@.wf(),
            final(self)@.start == old(self)@.start,
            final(self)@.rules.len() == old(self)@.rules.len(),
            bin_shaped(final(self)@.rules),
            empties_only_at(final(self)@.rules, final(self)@.start),
            forall|r: int, x: Seq<TokenModel>|
                0 <= r < old(self)@.rules.len() ==> ((#[trigger] final(self)@.rules[r].contains(x))
                    <==> ((x.len() > 0 || r == old(self)@.start) && exists|d: int|
                        0 <= d < old(self)@.rules[r].len() && variant_of(
                            old(self)@.rules,
                            #[trigger] old(self)@.rules[r][d],
                            x,
                        ))),
            terminals_nonempty(old(self)@.rules) ==> terminals_nonempty(final(self)@.rules),
            no_refs_to(old(self)@.rules, old(self)@.start) ==> no_refs_to(
                final(self)@.rules,
                final(self)@.start,
            ),
    {
        let ghost g0 = self@;
        let n = self.rules.len();
        // find the rules that can derive the empty string
        let mut null_marks: Vec<bool> = Vec::new();
        let mut j: usize = 0;
        while j < n
            invariant
                j <= n,
                null_marks@.len() == j as int,
                forall|x: int| 0 <= x < j ==> !null_marks@[x],
            decreases n - j,
        {
            null_marks.push(false);
            j += 1;
        }
        let mut changed = true;
        while changed
            invariant
                null_marks@.len() == n as int,
                n == self.rules@.len(),
                *self == *old(self),
                g0 == old(self)@,
                g0.rules.len() == n as int,
                bin_shaped(g0.rules),
                forall|i: int|
                    0 <= i < n && null_marks@[i] ==> #[trigger] nullable(g0.rules, i),
                !changed ==> forall|i: int|
                    0 <= i < n && !null_marks@[i] ==> !#[trigger] marks_step(g0.rules, null_marks@, i),
            decreases crate::reach::count_marked(null_marks@) * -2 + 2 * (n as int) + (if changed {
                1int
            } else {
                0int
            }),
        {
            proof {
                crate::reach::lemma_count_marked_le(null_marks@);
            }
            changed = false;
            let ghost marks0 = null_marks@;
            let mut idx: usize = 0;
            while idx < n
                invariant
                    idx <= n,
                    null_marks@.len() == n as int,
                    n == self.rules@.len(),
                    *self == *old(self),
                    g0 == old(self)@,
                    g0.rules.len() == n as int,
                    bin_shaped(g0.rules),
                    crate::reach::count_marked(null_marks@) >= crate::reach::count_marked(marks0),
                    changed ==> crate::reach::count_marked(null_marks@) > crate::reach::count_marked(
                        marks0,
                    ),
                    !changed ==> null_marks@ == marks0,
                    forall|i: int|
                        0 <= i < n && null_marks@[i] ==> #[trigger] nullable(g0.rules, i),
                    !changed ==> forall|i: int|
                        0 <= i < idx && !null_marks@[i] ==> !#[trigger] marks_step(
                            g0.rules,
                            null_marks@,
                            i,
                        ),
                decreases n - idx,
            {
                if !null_marks[idx] {
                    let rule = &self.rules[idx];
                    let ghost rv = g0.rules[idx as int];
                    proof {
                        assert(rules_view(self.rules@)[idx as int] == g0.rules[idx as int]);
                        assert(rv == rule_view(*rule));
                    }
                    let mut found = false;
                    let mut d: usize = 0;
                    while d < rule.len() && !found
                        invariant
                            d <= rule.len(),
                            idx < n,
                            null_marks@.len() == n as int,
                            rule == &self.rules@[idx as int],
                            rv == rule_view(*rule),
                            rv == g0.rules[idx as int],
                            rv.len() == rule@.len(),
                            found ==> marks_step(g0.rules, null_marks@, idx as int),
                            !found ==> forall|d2: int|
                                0 <= d2 < d ==> !def_all_marked(
                                    g0.rules,
                                    null_marks@,
                                    #[trigger] rv[d2],
                                ),
                        decreases rule.len() - d + (if found {
                            0int
                        } else {
                            1int
                        }),
                    {
                        let def = &rule[d];
                        let ghost dv = rv[d as int];
                        proof {
                            assert(dv == def_view(rule@[d as int]));
                        }
                        let mut all = true;
                        let mut t: usize = 0;
                        while t < def.len()
                            invariant
                                t <= def.len(),
                                null_marks@.len() == n as int,
                                def == &rule@[d as int],
                                dv == def_view(*def),
                                dv.len() == def@.len(),
                                all <==> (forall|t2: int|
                                    0 <= t2 < t ==> (#[trigger] dv[t2]) is NT && 0 <= dv[t2]->NT_0
                                        < n as int && null_marks@[dv[t2]->NT_0]),
                            decreases def.len() - t,
                        {
                            let ghost all0 = all;
                            match &def[t] {
                                Token::NT(m) => {
                                    proof {
                                        assert(dv[t as int] == TokenModel::NT(*m as int));
                                    }
                                    if *m >= n || !null_marks[*m] {
                                        all = false;
                                    }
                                },
                                Token::T(_) => {
                                    proof {
                                        assert(dv[t as int] is T);
                                    }
                                    all = false;
                                },
                            }
                            proof {
                                assert forall|t2: int|
                                    0 <= t2 < t + 1 && all implies (#[trigger] dv[t2]) is NT && 0
                                    <= dv[t2]->NT_0 < n as int && null_marks@[dv[t2]->NT_0] by {
                                    if t2 < t {
                                        assert(all0);
                                    }
                                }
                            }
                            t += 1;
                        }
                        if all {
                            found = true;
                            proof {
                                assert(def_all_marked(g0.rules, null_marks@, dv));
                                assert(marks_step(g0.rules, null_marks@, idx as int));
                            }
                        } else {
                            proof {
                                if def_all_marked(g0.rules, null_marks@, dv) {
                                    assert(forall|t2: int|
                                        0 <= t2 < dv.len() ==> (#[trigger] dv[t2]) is NT && 0
                                            <= dv[t2]->NT_0 < n as int && null_marks@[dv[t2]->NT_0]);
                                    assert(false);
                                }
                            }
                            d += 1;
                        }
                    }
                    if found {
                        proof {
                            crate::reach::lemma_count_marked_update(null_marks@, idx as int);
                            lemma_step_sound(g0.rules, null_marks@, idx as int);
                        }
                        null_marks.set(idx, true);
                        changed = true;
                        proof {
                            assert forall|i: int|
                                0 <= i < n && null_marks@[i] implies #[trigger] nullable(
                                g0.rules,
                                i,
                            ) by {
                                if i != idx as int {
                                    assert(null_marks@ == marks0.update(idx as int, true)
                                        || null_marks@[i] == null_marks@[i]);
                                }
                            }
                        }
                    } else {
                        proof {
                            if !changed {
                                assert forall|i: int|
                                    0 <= i < idx + 1 && !null_marks@[i] implies !#[trigger] marks_step(
                                    g0.rules,
                                    null_marks@,
                                    i,
                                ) by {
                                    if i == idx as int {
                                        if marks_step(g0.rules, null_marks@, i) {
                                            let d2 = choose|d2: int|
                                                0 <= d2 < g0.rules[i].len() && def_all_marked(
                                                    g0.rules,
                                                    null_marks@,
                                                    #[trigger] g0.rules[i][d2],
                                                );
                                            assert(!def_all_marked(
                                                g0.rules,
                                                null_marks@,
                                                rv[d2],
                                            ));
                                        }
                                    }
                                }
                            }
                        }
                    }
                }
                idx += 1;
            }
            proof {
                crate::reach::lemma_count_marked_le(null_marks@);
            }
        }
        let ghost marks = null_marks@;
        proof {
            assert forall|i: int| 0 <= i < n implies #[trigger] marks[i] == nullable(
                g0.rules,
                i,
            ) by {
                if nullable(g0.rules, i) {
                    let k = choose|k: nat| nullable_k(g0.rules, i, k);
                    lemma_closed_marks_nullable(g0.rules, marks, i, k);
                }
            }
        }
        // add every combination of leaving out nullable references, then
        // strip empty definitions everywhere but the start
        let start = self.start;
        let mut r: usize = 0;
        while r < n
            invariant
                r <= n,
                n == self.rules@.len(),
                self.start == old(self).start,
                start == self.start,
                g0 == old(self)@,
                g0.wf(),
                bin_shaped(g0.rules),
                g0.rules.len() == n as int,
                0 <= g0.start < n as int,
                start as int == g0.start,
                null_marks@.len() == n as int,
                marks == null_marks@,
                forall|i: int| 0 <= i < n ==> #[trigger] marks[i] == nullable(g0.rules, i),
                forall|k: int|
                    r as int <= k < n ==> rules_view(self.rules@)[k] == g0.rules[k],
                forall|k: int, d: int|
                    0 <= k < r && 0 <= d < rules_view(self.rules@)[k].len() ==> {
                        let def = #[trigger] rules_view(self.rules@)[k][d];
                        &&& def.len() <= 2
                        &&& (def.len() == 2 ==> def[0] is NT && def[1] is NT)
                        &&& (def.len() == 0 ==> k == g0.start)
                        &&& exists|d0: int|
                            0 <= d0 < g0.rules[k].len() && tokens_from(def, #[trigger] g0.rules[k][d0])
                    },
                forall|k: int, x: Seq<TokenModel>|
                    0 <= k < r ==> ((#[trigger] rules_view(self.rules@)[k].contains(x)) <==> ((
                    x.len() > 0 || k == g0.start) && exists|d2: int|
                        0 <= d2 < g0.rules[k].len() && variant_of(
                            g0.rules,
                            #[trigger] g0.rules[k][d2],
                            x,
                        ))),
            decreases n - r,
        {
            let rlen = self.rules[r].len();
            proof {
                assert(rules_view(self.rules@)[r as int] == g0.rules[r as int]);
            }
            // every definition of the rule, plus each synthesized variant
            let mut combined: Rule = Vec::new();
            let mut d: usize = 0;
            while d < rlen
                invariant
                    d <= rlen,
                    r < n,
                    n == self.rules@.len(),
                    g0 == old(self)@,
                    g0.wf(),
                    bin_shaped(g0.rules),
                    g0.rules.len() == n as int,
                    null_marks@.len() == n as int,
                    forall|k: int|
                        r as int <= k < n ==> rules_view(self.rules@)[k] == g0.rules[k],
                    rlen as int == g0.rules[r as int].len(),
                    marks == null_marks@,
                    forall|i: int| 0 <= i < n ==> #[trigger] marks[i] == nullable(g0.rules, i),
                    forall|d2: int| 0 <= d2 < combined@.len() ==> {
                        let def = #[trigger] def_view(combined@[d2]);
                        &&& def.len() <= 2
                        &&& (def.len() == 2 ==> def[0] is NT && def[1] is NT)
                        &&& exists|d0: int|
                            0 <= d0 < g0.rules[r as int].len() && tokens_from(
                                def,
                                #[trigger] g0.rules[r as int][d0],
                            )
                    },
                    forall|x: Seq<TokenModel>|
                        #[trigger] rule_view(combined).contains(x) <==> exists|d2: int|
                            0 <= d2 < d && variant_of(
                                g0.rules,
                                #[trigger] g0.rules[r as int][d2],
                                x,
                            ),
                decreases rlen - d,
            {
                let def = copy_def(&self.rules[r][d]);
                let ghost dv = def_view(def);
                proof {
                    assert(rules_view(self.rules@)[r as int] == g0.rules[r as int]);
                    assert(rule_view(self.rules@[r as int])[d as int] == def_view(
                        self.rules@[r as int]@[d as int],
                    ));
                    assert(dv == g0.rules[r as int][d as int]);
                    assert(dv.len() <= 2);
                    assert forall|i: int| 0 <= i < dv.len() implies exists|j: int|
                        0 <= j < dv.len() && (#[trigger] dv[i]) == dv[j] by {
                        assert(dv[i] == dv[i]);
                    }
                }
                // which end references can be left out
                let null0 = if def.len() >= 1 {
                    match &def[0] {
                        Token::NT(m) => *m < n && null_marks[*m],
                        Token::T(_) => false,
                    }
                } else {
                    false
                };
                let null_last = if def.len() >= 1 {
                    match &def[def.len() - 1] {
                        Token::NT(m) => *m < n && null_marks[*m],
                        Token::T(_) => false,
                    }
                } else {
                    false
                };
                proof {
                    assert(null0 == (dv.len() >= 1 && dv[0] is NT && nullable(
                        g0.rules,
                        dv[0]->NT_0,
                    ))) by {
                        if dv.len() >= 1 && dv[0] is NT {
                            assert(dv[0] == def@[0]@);
                            if 0 <= dv[0]->NT_0 < n as int {
                                assert(marks[dv[0]->NT_0] == nullable(g0.rules, dv[0]->NT_0));
                            } else {
                                assert(!nullable(g0.rules, dv[0]->NT_0));
                            }
                        }
                    }
                    assert(null_last == (dv.len() >= 1 && dv.last() is NT && nullable(
                        g0.rules,
                        dv.last()->NT_0,
                    ))) by {
                        if dv.len() >= 1 && dv.last() is NT {
                            assert(dv.last() == def@[def@.len() - 1]@);
                            if 0 <= dv.last()->NT_0 < n as int {
                                assert(marks[dv.last()->NT_0] == nullable(
                                    g0.rules,
                                    dv.last()->NT_0,
                                ));
                            } else {
                                assert(!nullable(g0.rules, dv.last()->NT_0));
                            }
                        }
                    }
                }
                let ghost c0 = rule_view(combined);
                if null0 {
                    // leave the first reference out
                    let mut v: Definition = Vec::new();
                    let mut t: usize = 1;
                    while t < def.len()
                        invariant
                            1 <= t <= def@.len() || def@.len() == 0,
                            dv == def_view(def),
                            dv.len() == def@.len(),
                            v@.len() + 1 == t as int || (def@.len() == 0 && v@.len() == 0),
                            forall|k: int| 0 <= k < v@.len() ==> (#[trigger] v@[k])@ == dv[k + 1],
                        decreases def.len() - t,
                    {
                        v.push(copy_token(&def[t]));
                        t += 1;
                    }
                    proof {
                        assert(def_view(v) =~= dv.drop_first());
                    }
                    push_variant(&mut combined, v);
                }
                if null_last && def.len() == 2 {
                    // leave the last reference out
                    let mut v: Definition = Vec::new();
                    v.push(copy_token(&def[0]));
                    proof {
                        assert(def_view(v) =~= dv.drop_last());
                    }
                    push_variant(&mut combined, v);
                }
                if null0 && null_last && def.len() == 2 {
                    // leave both references out
                    let v: Definition = Vec::new();
                    proof {
                        assert(def_view(v) =~= Seq::<TokenModel>::empty());
                    }
                    push_variant(&mut combined, v);
                }
                push_variant(&mut combined, def);
                proof {
                    let cN = rule_view(combined);
                    assert forall|x: Seq<TokenModel>| #[trigger] cN.contains(x) implies exists|
                        d2: int,
                    |
                        0 <= d2 < d + 1 && variant_of(
                            g0.rules,
                            #[trigger] g0.rules[r as int][d2],
                            x,
                        ) by {
                        if c0.contains(x) {
                        } else {
                            assert(variant_of(g0.rules, dv, x));
                            assert(g0.rules[r as int][d as int] == dv);
                        }
                    }
                    assert forall|x: Seq<TokenModel>|
                        (exists|d2: int|
                            0 <= d2 < d + 1 && variant_of(
                                g0.rules,
                                #[trigger] g0.rules[r as int][d2],
                                x,
                            )) implies #[trigger] cN.contains(x) by {
                        let d2 = choose|d2: int|
                            0 <= d2 < d + 1 && variant_of(
                                g0.rules,
                                #[trigger] g0.rules[r as int][d2],
                                x,
                            );
                        if d2 < d {
                            assert(c0.contains(x));
                        } else {
                            assert(variant_of(g0.rules, dv, x));
                            if x == dv {
                            } else if dv.len() >= 1 && dv[0] is NT && nullable(
                                g0.rules,
                                dv[0]->NT_0,
                            ) && x == dv.drop_first() {
                                assert(null0);
                            } else if dv.len() >= 1 && dv.last() is NT && nullable(
                                g0.rules,
                                dv.last()->NT_0,
                            ) && x == dv.drop_last() {
                                assert(null_last);
                                if dv.len() == 1 {
                                    assert(dv.drop_last() =~= dv.drop_first());
                                    assert(null0);
                                } else {
                                    assert(dv.len() == 2);
                                }
                            } else {
                                assert(dv.len() == 2 && null0 && null_last && x == Seq::<
                                    TokenModel,
                                >::empty());
                            }
                        }
                    }
                }
                proof {
                    assert forall|d2: int| 0 <= d2 < combined@.len() implies {
                        let defv = #[trigger] def_view(combined@[d2]);
                        &&& defv.len() <= 2
                        &&& (defv.len() == 2 ==> defv[0] is NT && defv[1] is NT)
                        &&& exists|d0: int|
                            0 <= d0 < g0.rules[r as int].len() && tokens_from(
                                defv,
                                #[trigger] g0.rules[r as int][d0],
                            )
                    } by {
                        assert(rule_view(combined)[d2] == def_view(combined@[d2]));
                        assert(rule_view(combined).contains(def_view(combined@[d2])));
                        let d0 = choose|d0: int|
                            0 <= d0 < d + 1 && variant_of(
                                g0.rules,
                                #[trigger] g0.rules[r as int][d0],
                                def_view(combined@[d2]),
                            );
                        assert(g0.rules[r as int][d0].len() <= 2);
                        lemma_variant_shape(
                            g0.rules,
                            g0.rules[r as int][d0],
                            def_view(combined@[d2]),
                        );
                    }
                }
                d += 1;
            }
            // sort, remove duplicates, and strip empty definitions
            let sorted = crate::simplify::dedup_rule(&combined);
            let ghost sv = rule_view(sorted);
            proof {
                assert forall|d2: int| 0 <= d2 < sv.len() implies {
                    let def = #[trigger] sv[d2];
                    &&& def.len() <= 2
                    &&& (def.len() == 2 ==> def[0] is NT && def[1] is NT)
                    &&& exists|d0: int|
                        0 <= d0 < g0.rules[r as int].len() && tokens_from(
                            def,
                            #[trigger] g0.rules[r as int][d0],
                        )
                } by {
                    assert(sv.contains(sv[d2]));
                    assert(rule_view(combined).contains(sv[d2]));
                    let c = choose|c: int|
                        0 <= c < rule_view(combined).len() && rule_view(combined)[c] == sv[d2];
                    assert(def_view(combined@[c]) == sv[d2]);
                }
            }
            let mut kept: Rule = Vec::new();
            let mut d2: usize = 0;
            while d2 < sorted.len()
                invariant
                    d2 <= sorted.len(),
                    r < n,
                    start as int == g0.start,
                    sv == rule_view(sorted),
                    sv.len() == sorted@.len(),
                    forall|k: int| 0 <= k < sv.len() ==> {
                        let def = #[trigger] sv[k];
                        &&& def.len() <= 2
                        &&& (def.len() == 2 ==> def[0] is NT && def[1] is NT)
                        &&& exists|d0: int|
                            0 <= d0 < g0.rules[r as int].len() && tokens_from(
                                def,
                                #[trigger] g0.rules[r as int][d0],
                            )
                    },
                    forall|k: int| 0 <= k < kept@.len() ==> {
                        let def = #[trigger] def_view(kept@[k]);
                        &&& def.len() <= 2
                        &&& (def.len() == 2 ==> def[0] is NT && def[1] is NT)
                        &&& (def.len() == 0 ==> r as int == g0.start)
                        &&& exists|d0: int|
                            0 <= d0 < g0.rules[r as int].len() && tokens_from(
                                def,
                                #[trigger] g0.rules[r as int][d0],
                            )
                    },
                    forall|x: Seq<TokenModel>|
                        #[trigger] rule_view(kept).contains(x) <==> (sv.take(d2 as int).contains(
                            x,
                        ) && (x.len() > 0 || r as int == g0.start)),
                decreases sorted.len() - d2,
            {
                proof {
                    assert(sv[d2 as int] == def_view(sorted@[d2 as int]));
                }
                let ghost k0 = rule_view(kept);
                let keep = r == start || sorted[d2].len() > 0;
                if keep {
                    kept.push(copy_def(&sorted[d2]));
                    proof {
                        assert(rule_view(kept) =~= k0.push(sv[d2 as int]));
                    }
                }
                proof {
                    assert forall|x: Seq<TokenModel>| #[trigger] rule_view(kept).contains(x)
                        implies (sv.take(d2 + 1).contains(x) && (x.len() > 0 || r as int
                        == g0.start)) by {
                        let j = choose|j: int|
                            0 <= j < rule_view(kept).len() && rule_view(kept)[j] == x;
                        if j < k0.len() {
                            assert(k0[j] == x);
                            assert(k0.contains(x));
                            let j2 = choose|j2: int|
                                0 <= j2 < d2 && #[trigger] sv.take(d2 as int)[j2] == x;
                            assert(sv.take(d2 + 1)[j2] == x);
                        } else {
                            assert(x == sv[d2 as int]);
                            assert(sv.take(d2 + 1)[d2 as int] == x);
                        }
                    }
                    assert forall|x: Seq<TokenModel>|
                        (sv.take(d2 + 1).contains(x) && (x.len() > 0 || r as int == g0.start))
                        implies #[trigger] rule_view(kept).contains(x) by {
                        let j = choose|j: int|
                            0 <= j < d2 + 1 && #[trigger] sv.take(d2 + 1)[j] == x;
                        if j < d2 {
                            assert(sv.take(d2 as int)[j] == x);
                            assert(sv.take(d2 as int).contains(x));
                            assert(k0.contains(x));
                            let j2 = choose|j2: int| 0 <= j2 < k0.len() && k0[j2] == x;
                            assert(rule_view(kept)[j2] == x);
                        } else {
                            assert(x == sv[d2 as int]);
                            assert(keep);
                            assert(rule_view(kept)[k0.len() as int] == x);
                        }
                    }
                }
                d2 += 1;
            }
            let ghost pre = self.rules@;
            self.rules.set(r, kept);
            proof {
                assert(rules_view(self.rules@) =~= rules_view(pre).update(
                    r as int,
                    rule_view(kept),
                ));
                assert(sv.take(sv.len() as int) =~= sv);
                // the rule now holds exactly the surviving variants
                assert forall|x: Seq<TokenModel>| (#[trigger] rules_view(self.rules@)[r as int]
                    .contains(x)) <==> ((x.len() > 0 || r as int == g0.start) && exists|dd2: int|
                    0 <= dd2 < g0.rules[r as int].len() && variant_of(
                        g0.rules,
                        #[trigger] g0.rules[r as int][dd2],
                        x,
                    )) by {
                    assert(rules_view(self.rules@)[r as int] == rule_view(kept));
                    assert(rule_view(kept).contains(x) <==> (sv.contains(x) && (x.len() > 0
                        || r as int == g0.start)));
                    assert(sv.contains(x) <==> rule_view(combined).contains(x));
                }
            }
            r += 1;
        }
        proof {
            assert forall|a: int, b: int, c: int|
                0 <= a < rules_view(self.rules@).len() && 0 <= b < rules_view(self.rules@)[a].len()
                    && 0 <= c < rules_view(self.rules@)[a][b].len() implies {
                let tok = #[trigger] rules_view(self.rules@)[a][b][c];
                &&& (tok is NT ==> 0 <= tok->NT_0 < n as int)
                &&& (terminals_nonempty(g0.rules) && tok is T ==> tok->T_0.len() > 0)
                &&& (no_refs_to(g0.rules, g0.start) ==> tok != TokenModel::NT(g0.start))
            } by {
                let def = rules_view(self.rules@)[a][b];
                let d0 = choose|d0: int|
                    0 <= d0 < g0.rules[a].len() && tokens_from(def, #[trigger] g0.rules[a][d0]);
                let j = choose|j: int| 0 <= j < g0.rules[a][d0].len() && def[c] == g0.rules[a][d0][j];
            }
        }
    }
}

impl Grammar {
    /// Replaces every alternative that is a single rule reference by the
    /// referenced rule's alternatives. Each referenced rule is inlined at
    /// most once per rule, and a reference of a rule to itself is simply
    /// dropped: repeated inlining adds nothing once duplicates are
    /// removed, and a lone self-reference can never terminate.
    pub(crate) fn n_unit(&mut self)
        requires
            old(self)@.wf(),
            bin_shaped(old(self)@.rules),
            empties_only_at(old(self)@.rules, old(self)@.start),
            no_refs_to(old(self)@.rules, old(self)@.start),
        ensures
            final(self)@.wf(),
            final(self)@.start == old(self)@.start,
            final(self)@.rules.len() == old(self)@.rules.len(),
            cnf_shaped(final(self)@.rules, final(self)@.start),
            terminals_nonempty(old(self)@.rules) ==> terminals_nonempty(final(self)@.rules),
    {
        let ghost g0 = self@;
        let ghost ne = terminals_nonempty(g0.rules);
        let n = self.rules.len();
        let mut r: usize = 0;
        while r < n
            invariant
                r <= n,
                n == self.rules@.len(),
                self.start == old(self).start,
                g0 == old(self)@,
                g0.wf(),
                g0.rules.len() == n as int,
                0 <= g0.start < n as int,
                ne == terminals_nonempty(g0.rules),
                // every rule keeps the shape established by the earlier passes
                forall|k: int, d: int|
                    0 <= k < n && 0 <= d < rules_view(self.rules@)[k].len() ==> {
                        let def = #[trigger] rules_view(self.rules@)[k][d];
                        &&& def.len() <= 2
                        &&& (def.len() == 2 ==> def[0] is NT && def[1] is NT)
                        &&& (def.len() == 0 ==> k == g0.start)
                        &&& (forall|t: int|
                            0 <= t < def.len() && (#[trigger] def[t]) is NT ==> 0 <= def[t]->NT_0
                                < n as int && def[t] != TokenModel::NT(g0.start))
                        &&& (ne ==> forall|t: int|
                            0 <= t < def.len() && (#[trigger] def[t]) is T ==> def[t]->T_0.len()
                                > 0)
                    },
                // processed rules hold no unit references any more
                forall|k: int, d: int|
                    0 <= k < r && 0 <= d < rules_view(self.rules@)[k].len()
                        && (#[trigger] rules_view(self.rules@)[k][d]).len() == 1
                        ==> rules_view(self.rules@)[k][d][0] is T,
            decreases n - r,
        {
            let mut work: Rule = copy_rule(&self.rules[r]);
            let mut kept: Rule = Vec::new();
            let mut inlined: Vec<bool> = Vec::new();
            let mut j: usize = 0;
            while j < n
                invariant
                    j <= n,
                    inlined@.len() == j as int,
                decreases n - j,
            {
                inlined.push(false);
                j += 1;
            }
            proof {
                assert(rule_view(work) == rules_view(self.rules@)[r as int]);
                crate::reach::lemma_count_marked_le(inlined@);
            }
            let mut i: usize = 0;
            while i < work.len()
                invariant
                    i <= work.len(),
                    r < n,
                    n == self.rules@.len(),
                    self.start == old(self).start,
                    g0 == old(self)@,
                    g0.wf(),
                    g0.rules.len() == n as int,
                    0 <= g0.start < n as int,
                    ne == terminals_nonempty(g0.rules),
                    inlined@.len() == n as int,
                    forall|k: int, d: int|
                        0 <= k < n && 0 <= d < rules_view(self.rules@)[k].len() ==> {
                            let def = #[trigger] rules_view(self.rules@)[k][d];
                            &&& def.len() <= 2
                            &&& (def.len() == 2 ==> def[0] is NT && def[1] is NT)
                            &&& (def.len() == 0 ==> k == g0.start)
                            &&& (forall|t: int|
                                0 <= t < def.len() && (#[trigger] def[t]) is NT ==> 0 <= def[t]->NT_0
                                    < n as int && def[t] != TokenModel::NT(g0.start))
                            &&& (ne ==> forall|t: int|
                                0 <= t < def.len() && (#[trigger] def[t]) is T ==> def[t]->T_0.len()
                                    > 0)
                        },
                    forall|k: int, d: int|
                        0 <= k < r && 0 <= d < rules_view(self.rules@)[k].len()
                            && (#[trigger] rules_view(self.rules@)[k][d]).len() == 1
                            ==> rules_view(self.rules@)[k][d][0] is T,
                    forall|d: int| 0 <= d < rule_view(work).len() ==> {
                        let def = #[trigger] rule_view(work)[d];
                        &&& def.len() <= 2
                        &&& (def.len() == 2 ==> def[0] is NT && def[1] is NT)
                        &&& (def.len() == 0 ==> r as int == g0.start)
                        &&& (forall|t: int|
                            0 <= t < def.len() && (#[trigger] def[t]) is NT ==> 0 <= def[t]->NT_0
                                < n as int && def[t] != TokenModel::NT(g0.start))
                        &&& (ne ==> forall|t: int|
                            0 <= t < def.len() && (#[trigger] def[t]) is T ==> def[t]->T_0.len()
                                > 0)
                    },
                    forall|d: int| 0 <= d < rule_view(kept).len() ==> {
                        let def = #[trigger] rule_view(kept)[d];
                        &&& def.len() <= 2
                        &&& (def.len() == 2 ==> def[0] is NT && def[1] is NT)
                        &&& (def.len() == 0 ==> r as int == g0.start)
                        &&& (def.len() == 1 ==> def[0] is T)
                        &&& (forall|t: int|
                            0 <= t < def.len() && (#[trigger] def[t]) is NT ==> 0 <= def[t]->NT_0
                                < n as int && def[t] != TokenModel::NT(g0.start))
                        &&& (ne ==> forall|t: int|
                            0 <= t < def.len() && (#[trigger] def[t]) is T ==> def[t]->T_0.len()
                                > 0)
                    },
                decreases (n as int) - crate::reach::count_marked(inlined@), work@.len() - i,
            {
                proof {
                    assert(rule_view(work)[i as int] == def_view(work@[i as int]));
                    crate::reach::lemma_count_marked_le(inlined@);
                }
                let mut unit_target: Option<usize> = Option::None;
                if work[i].len() == 1 {
                    match &work[i][0] {
                        Token::NT(m) => {
                            unit_target = Option::Some(*m);
                        },
                        Token::T(_) => {},
                    }
                }
                match unit_target {
                    Option::Some(m) => {
                        proof {
                            assert(rule_view(work)[i as int][0] == TokenModel::NT(m as int));
                            assert((m as int) < n as int);
                            assert(m as int != g0.start);
                        }
                        if m != r && !inlined[m] {
                            proof {
                                crate::reach::lemma_count_marked_update(inlined@, m as int);
                            }
                            inlined.set(m, true);
                            proof {
                                crate::reach::lemma_count_marked_le(inlined@);
                            }
                            let mlen = self.rules[m].len();
                            let mut j2: usize = 0;
                            while j2 < mlen
                                invariant
                                    j2 <= mlen,
                                    work@.len() >= i + 1,
                                    m < n,
                                    r < n,
                                    n == self.rules@.len(),
                                    g0 == old(self)@,
                                    g0.rules.len() == n as int,
                                    0 <= g0.start < n as int,
                                    m as int != g0.start,
                                    ne == terminals_nonempty(g0.rules),
                                    mlen as int == rules_view(self.rules@)[m as int].len(),
                                    forall|k: int, d: int|
                                        0 <= k < n && 0 <= d < rules_view(self.rules@)[k].len()
                                            ==> {
                                            let def = #[trigger] rules_view(self.rules@)[k][d];
                                            &&& def.len() <= 2
                                            &&& (def.len() == 2 ==> def[0] is NT && def[1] is NT)
                                            &&& (def.len() == 0 ==> k == g0.start)
                                            &&& (forall|t: int|
                                                0 <= t < def.len() && (#[trigger] def[t]) is NT
                                                    ==> 0 <= def[t]->NT_0 < n as int && def[t]
                                                    != TokenModel::NT(g0.start))
                                            &&& (ne ==> forall|t: int|
                                                0 <= t < def.len() && (#[trigger] def[t]) is T
                                                    ==> def[t]->T_0.len() > 0)
                                        },
                                    forall|d: int| 0 <= d < rule_view(work).len() ==> {
                                        let def = #[trigger] rule_view(work)[d];
                                        &&& def.len() <= 2
                                        &&& (def.len() == 2 ==> def[0] is NT && def[1] is NT)
                                        &&& (def.len() == 0 ==> r as int == g0.start)
                                        &&& (forall|t: int|
                                            0 <= t < def.len() && (#[trigger] def[t]) is NT ==> 0
                                                <= def[t]->NT_0 < n as int && def[t]
                                                != TokenModel::NT(g0.start))
                                        &&& (ne ==> forall|t: int|
                                            0 <= t < def.len() && (#[trigger] def[t]) is T
                                                ==> def[t]->T_0.len() > 0)
                                    },
                                decreases mlen - j2,
                            {
                                let ghost w0 = rule_view(work);
                                let newdef = copy_def(&self.rules[m][j2]);
                                proof {
                                    assert(rule_view(self.rules@[m as int])[j2 as int] == def_view(
                                        self.rules@[m as int]@[j2 as int],
                                    ));
                                    assert(def_view(newdef) == rules_view(
                                        self.rules@,
                                    )[m as int][j2 as int]);
                                    assert(def_view(newdef).len() == 0 ==> m as int == g0.start);
                                }
                                work.push(newdef);
                                proof {
                                    assert(rule_view(work) =~= w0.push(rules_view(
                                        self.rules@,
                                    )[m as int][j2 as int]));
                                }
                                j2 += 1;
                            }
                        }
                    },
                    Option::None => {
                        let ghost k0 = rule_view(kept);
                        kept.push(copy_def(&work[i]));
                        proof {
                            assert(rule_view(kept) =~= k0.push(rule_view(work)[i as int]));
                            let def = rule_view(work)[i as int];
                            if def.len() == 1 {
                                assert(!(def[0] is NT));
                            }
                        }
                    },
                }
                i += 1;
            }
            let ghost pre = self.rules@;
            self.rules.set(r, kept);
            proof {
                assert(rules_view(self.rules@) =~= rules_view(pre).update(
                    r as int,
                    rule_view(kept),
                ));
            }
            r += 1;
        }
    }
}

impl Grammar {
    /// Brings this grammar into Chomsky Normal Form: after this pass
    /// every alternative is a single terminal or a pair of rule
    /// references, an empty alternative stands at the start rule only,
    /// and every rule reference is a valid index.
    pub fn normalize(&mut self)
        requires
            old(self)@.wf(),
        ensures
            final(self)@.wf(),
            terminals_nonempty(final(self)@.rules),
            cnf_shaped(final(self)@.rules, final(self)@.start),
    {
        self.simplify();
        self.n_start();
        self.n_term();
        self.n_bin();
        self.n_del();
        let ghost g5 = self@;
        self.remove_cycles();
        let ghost g6 = self@;
        proof {
            assert forall|r: int, d: int|
                0 <= r < g6.rules.len() && 0 <= d < g6.rules[r].len() implies exists|d2: int|
                0 <= d2 < g5.rules[r].len() && g5.rules[r][d2] == #[trigger] g6.rules[r][d] by {
                let pr = (|x: Seq<TokenModel>| x != seq![TokenModel::NT(r)]);
                assert(g6.rules[r] == g5.rules[r].filter(pr));
                assert(g6.rules[r].contains(g6.rules[r][d]));
                crate::simplify::lemma_filter_subset(g5.rules[r], pr, g6.rules[r][d]);
                let d2 = choose|d2: int|
                    0 <= d2 < g5.rules[r].len() && g5.rules[r][d2] == g6.rules[r][d];
            }
            assert(g6.wf());
            assert(bin_shaped(g6.rules));
            assert(empties_only_at(g6.rules, g6.start));
            assert(no_refs_to(g6.rules, g6.start));
            assert(terminals_nonempty(g5.rules) ==> terminals_nonempty(g6.rules));
        }
        self.n_unit();
        self.simplify();
    }
}

} // verus!