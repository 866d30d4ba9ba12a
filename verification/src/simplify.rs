//! Structural simplification of a grammar: canonicalizing terminals,
//! deduplicating alternatives, and removing self-loops, impossible rules
//! and unreachable rules.

use vstd::prelude::*;
use crate::grammar::{Grammar, Terminal, Token, TokenModel, Definition, Rule, def_view, rule_view,
    rules_view, copy_token, copy_def};
use crate::order::{def_lt, def_cmp, lemma_def_lt_total, lemma_def_lt_asym, lemma_def_lt_trans};
use crate::grammar::{wf_rules, terminals_nonempty, cnf_shaped, GrammarModel, g_derives,
    lemma_same_defs_language, tok_derives, def_derives, lemma_tok_derives_mono,
    lemma_tok_derives_sub_defs};
use crate::reach::{possible, possible_avoid, reachable, reach_k, reach_upto, references, remap_rule,
    remap_def, remap_tok, compacted, image_upto, lemma_reach_upto_le, lemma_reach_upto_lt,
    lemma_reach_upto_surj, lemma_reach_upto_identity, lemma_reach_upto_injective,
    lemma_reachable_step, lemma_reach_transport, lemma_possible_transport, lemma_image_empty,
    lemma_possible_avoid_shrink, lemma_possible_flatten, lemma_remap_def_order};

verus! {

/// The alternatives of a rule stand in strictly increasing definition
/// order: sorted, with no duplicates.
pub open spec fn strictly_sorted_rule(r: Seq<Seq<TokenModel>>) -> bool {
    forall|i: int, j: int| 0 <= i < j < r.len() ==> def_lt(r[i], r[j])
}

/// The result of merging adjacent terminals of a definition, with `acc`
/// the run of characters collected so far: an empty terminal stands
/// before every rule reference and at the end.
pub open spec fn conc_from(d: Seq<TokenModel>, acc: Seq<char>) -> Seq<TokenModel>
    decreases d.len(),
{
    if d.len() == 0 {
        seq![TokenModel::T(acc)]
    } else {
        match d[0] {
            TokenModel::T(t) => conc_from(d.drop_first(), acc + t),
            TokenModel::NT(n) => seq![TokenModel::T(acc), TokenModel::NT(n)] + conc_from(
                d.drop_first(),
                Seq::<char>::empty(),
            ),
        }
    }
}

/// The result of merging adjacent terminals of a definition.
pub open spec fn conc_def(d: Seq<TokenModel>) -> Seq<TokenModel> {
    conc_from(d, Seq::<char>::empty())
}

/// The result of dropping every empty terminal from a definition.
pub open spec fn strip_def(d: Seq<TokenModel>) -> Seq<TokenModel> {
    d.filter(|t: TokenModel| !t.is_empty())
}

/// Every rule reference of the merged definition already stood in the
/// original definition.
pub proof fn lemma_conc_from_nts(d: Seq<TokenModel>, acc: Seq<char>, k: int)
    requires
        0 <= k < conc_from(d, acc).len(),
        conc_from(d, acc)[k] is NT,
    ensures
        exists|j: int| 0 <= j < d.len() && d[j] == conc_from(d, acc)[k],
    decreases d.len(),
{
    if d.len() == 0 {
    } else {
        match d[0] {
            TokenModel::T(t) => {
                lemma_conc_from_nts(d.drop_first(), acc + t, k);
                let j = choose|j: int|
                    0 <= j < d.drop_first().len() && d.drop_first()[j] == conc_from(d, acc)[k];
                assert(d[j + 1] == conc_from(d, acc)[k]);
            },
            TokenModel::NT(n) => {
                if k == 1 {
                    assert(d[0] == conc_from(d, acc)[k]);
                } else if k >= 2 {
                    assert(conc_from(d, acc)[k] == conc_from(
                        d.drop_first(),
                        Seq::<char>::empty(),
                    )[k - 2]);
                    lemma_conc_from_nts(d.drop_first(), Seq::<char>::empty(), k - 2);
                    let j = choose|j: int|
                        0 <= j < d.drop_first().len() && d.drop_first()[j] == conc_from(
                            d.drop_first(),
                            Seq::<char>::empty(),
                        )[k - 2];
                    assert(d.drop_first()[j] == d[j + 1]);
                    assert(d[j + 1] == conc_from(d, acc)[k]);
                }
            },
        }
    }
}

/// Merges one definition's adjacent terminals.
fn conc_one(def: &Definition) -> (out: Definition)
    ensures
        def_view(out) == conc_def(def_view(*def)),
{
    let ghost dv = def_view(*def);
    let mut acc: Terminal = Vec::new();
    let mut out: Definition = Vec::new();
    let mut i: usize = 0;
    proof {
        assert(dv.skip(0) =~= dv);
        assert(def_view(out) + conc_from(dv, acc@) =~= conc_from(dv, acc@));
    }
    while i < def.len()
        invariant
            i <= def.len(),
            dv == def_view(*def),
            dv.len() == def@.len(),
            conc_def(dv) == def_view(out) + conc_from(dv.skip(i as int), acc@),
        decreases def.len() - i,
    {
        proof {
            assert(dv.skip(i as int)[0] == dv[i as int]);
            assert(dv.skip(i as int).drop_first() =~= dv.skip(i + 1));
        }
        match &def[i] {
            Token::T(t) => {
                let ghost acc0 = acc@;
                let mut j: usize = 0;
                while j < t.len()
                    invariant
                        j <= t.len(),
                        acc@ == acc0 + t@.take(j as int),
                    decreases t.len() - j,
                {
                    acc.push(t[j]);
                    proof {
                        assert(acc0 + t@.take(j as int) + seq![t@[j as int]] =~= acc0 + t@.take(
                            j + 1,
                        ));
                    }
                    j += 1;
                }
                proof {
                    assert(acc@ =~= acc0 + t@);
                    assert(conc_from(dv.skip(i as int), acc0) == conc_from(
                        dv.skip(i + 1),
                        acc0 + t@,
                    ));
                }
            },
            Token::NT(n) => {
                let ghost out0 = def_view(out);
                let ghost acc0 = acc@;
                out.push(Token::T(acc));
                out.push(Token::NT(*n));
                acc = Vec::new();
                proof {
                    assert(def_view(out) =~= out0 + seq![
                        TokenModel::T(acc0),
                        TokenModel::NT(*n as int),
                    ]);
                    assert(conc_from(dv.skip(i as int), acc0) == seq![
                        TokenModel::T(acc0),
                        TokenModel::NT(*n as int),
                    ] + conc_from(dv.skip(i + 1), Seq::<char>::empty()));
                    assert(out0 + conc_from(dv.skip(i as int), acc0) =~= def_view(out) + conc_from(
                        dv.skip(i + 1),
                        acc@,
                    ));
                }
            },
        }
        i += 1;
    }
    let ghost out0 = def_view(out);
    let ghost acc0 = acc@;
    out.push(Token::T(acc));
    proof {
        assert(dv.skip(dv.len() as int).len() == 0);
        assert(conc_from(dv.skip(i as int), acc0) == seq![TokenModel::T(acc0)]);
        assert(def_view(out) =~= out0 + seq![TokenModel::T(acc0)]);
    }
    out
}

/// Drops the empty terminals of one definition.
fn strip_one(def: &Definition) -> (out: Definition)
    ensures
        def_view(out) == strip_def(def_view(*def)),
{
    let ghost dv = def_view(*def);
    let ghost p = (|t: TokenModel| !t.is_empty());
    let mut out: Definition = Vec::new();
    let mut i: usize = 0;
    proof {
        reveal(Seq::filter);
        assert(dv.take(0) =~= Seq::<TokenModel>::empty());
        assert(def_view(out) =~= dv.take(0).filter(p));
    }
    while i < def.len()
        invariant
            i <= def.len(),
            dv == def_view(*def),
            dv.len() == def@.len(),
            def_view(out) == dv.take(i as int).filter(p),
            p == (|t: TokenModel| !t.is_empty()),
        decreases def.len() - i,
    {
        proof {
            reveal(Seq::filter);
            assert(dv.take(i + 1).drop_last() =~= dv.take(i as int));
            assert(dv.take(i + 1).last() == dv[i as int]);
        }
        if !def[i].is_empty() {
            let ghost out0 = def_view(out);
            out.push(copy_token(&def[i]));
            proof {
                assert(def_view(out) =~= out0.push(dv[i as int]));
            }
        }
        i += 1;
    }
    proof {
        assert(dv.take(dv.len() as int) =~= dv);
    }
    out
}

/// Inserts a definition into a sorted duplicate-free rule, keeping it
/// sorted and duplicate-free.
fn sorted_insert(out: &mut Rule, d: Definition)
    requires
        strictly_sorted_rule(rule_view(*old(out))),
    ensures
        strictly_sorted_rule(rule_view(*final(out))),
        forall|x: Seq<TokenModel>| #[trigger] rule_view(*final(out)).contains(x) <==> (rule_view(
            *old(out),
        ).contains(x) || x == def_view(d)),
{
    let ghost ov = rule_view(*old(out));
    let ghost dv = def_view(d);
    proof {
        assert(ov.len() == out@.len());
        assert forall|k: int| 0 <= k < ov.len() implies #[trigger] ov[k] == def_view(
            out@[k],
        ) by {
            assert(rule_view(*out)[k] == def_view(out@[k]));
        }
    }
    let mut idx: usize = 0;
    let mut stop = false;
    while !stop && idx < out.len()
        invariant
            idx <= out.len(),
            *out == *old(out),
            ov.len() == out@.len(),
            dv == def_view(d),
            forall|k: int| 0 <= k < ov.len() ==> #[trigger] ov[k] == def_view(out@[k]),
            forall|k: int| 0 <= k < idx ==> def_lt(#[trigger] ov[k], dv),
            stop ==> idx < out@.len() && !def_lt(ov[idx as int], dv),
        decreases out.len() - idx + (if stop { 0int } else { 1int }),
    {
        let c = def_cmp(&out[idx], &d);
        if c == 1 {
            proof {
                assert(ov[idx as int] == def_view(out@[idx as int]));
            }
            idx += 1;
        } else {
            stop = true;
        }
    }
    let mut is_dup = false;
    if idx < out.len() {
        let c = def_cmp(&out[idx], &d);
        if c == 0 {
            is_dup = true;
        }
    }
    if is_dup {
        proof {
            assert(ov[idx as int] == dv);
            assert(ov.contains(dv));
        }
    } else {
        proof {
            if idx < out.len() {
                lemma_def_lt_total(ov[idx as int], dv);
                assert(def_lt(dv, ov[idx as int]));
            }
        }
        out.insert(idx, d);
        proof {
            let nv = rule_view(*out);
            assert(nv =~= ov.insert(idx as int, dv));
            assert forall|i: int, j: int| 0 <= i < j < nv.len() implies def_lt(nv[i], nv[j]) by {
                if j < idx {
                    assert(nv[i] == ov[i] && nv[j] == ov[j]);
                } else if i < idx && j == idx {
                    assert(nv[i] == ov[i] && nv[j] == dv);
                } else if i < idx && j > idx {
                    assert(nv[i] == ov[i] && nv[j] == ov[j - 1]);
                } else if i == idx {
                    assert(nv[j] == ov[j - 1]);
                    if j - 1 > idx {
                        lemma_def_lt_trans(dv, ov[idx as int], ov[j - 1]);
                    }
                } else {
                    assert(nv[i] == ov[i - 1] && nv[j] == ov[j - 1]);
                }
            }
            assert forall|x: Seq<TokenModel>| #[trigger] nv.contains(x) implies (ov.contains(x)
                || x == dv) by {
                let k = choose|k: int| 0 <= k < nv.len() && nv[k] == x;
                if k < idx {
                    assert(ov[k] == x);
                } else if k > idx {
                    assert(ov[k - 1] == x);
                }
            }
            assert forall|x: Seq<TokenModel>| (ov.contains(x) || x == dv) implies #[trigger] nv
                .contains(x) by {
                if ov.contains(x) {
                    let k = choose|k: int| 0 <= k < ov.len() && ov[k] == x;
                    if k < idx {
                        assert(nv[k] == x);
                    } else {
                        assert(nv[k + 1] == x);
                    }
                } else {
                    assert(nv[idx as int] == x);
                }
            }
        }
    }
}

/// Sorts the alternatives of one rule and removes duplicates.
pub(crate) fn dedup_rule(rule: &Rule) -> (out: Rule)
    ensures
        strictly_sorted_rule(rule_view(out)),
        forall|x: Seq<TokenModel>| #[trigger] rule_view(out).contains(x) <==> rule_view(
            *rule,
        ).contains(x),
{
    let ghost rv = rule_view(*rule);
    let mut out: Rule = Vec::new();
    let mut d: usize = 0;
    proof {
        assert(rule_view(out) =~= Seq::<Seq<TokenModel>>::empty());
    }
    while d < rule.len()
        invariant
            d <= rule.len(),
            rv == rule_view(*rule),
            rv.len() == rule@.len(),
            strictly_sorted_rule(rule_view(out)),
            forall|x: Seq<TokenModel>| #[trigger] rule_view(out).contains(x) <==> rv.take(
                d as int,
            ).contains(x),
        decreases rule.len() - d,
    {
        sorted_insert(&mut out, copy_def(&rule[d]));
        proof {
            assert forall|x: Seq<TokenModel>| #[trigger] rv.take(d + 1).contains(x) implies (
            rv.take(d as int).contains(x) || x == rv[d as int]) by {
                let k = choose|k: int| 0 <= k < rv.take(d + 1).len() && #[trigger] rv.take(d + 1)[k] == x;
                if k < d {
                    assert(rv.take(d as int)[k] == x);
                }
            }
            assert forall|x: Seq<TokenModel>| (rv.take(d as int).contains(x) || x == rv[d as int])
                implies #[trigger] rv.take(d + 1).contains(x) by {
                if rv.take(d as int).contains(x) {
                    let k = choose|k: int| 0 <= k < d && rv.take(d as int)[k] == x;
                    assert(rv.take(d + 1)[k] == x);
                } else {
                    assert(rv.take(d + 1)[d as int] == x);
                }
            }
        }
        d += 1;
    }
    proof {
        assert(rv.take(rv.len() as int) =~= rv);
    }
    out
}


/// An element of a filtered sequence stands in the sequence itself.
pub proof fn lemma_filter_subset<A>(s: Seq<A>, p: spec_fn(A) -> bool, x: A)
    requires
        s.filter(p).contains(x),
    ensures
        s.contains(x),
    decreases s.len(),
{
    reveal(Seq::filter);
    if s.len() > 0 {
        if s.last() == x {
            assert(s[s.len() - 1] == x);
        } else {
            if p(s.last()) {
                let f = s.drop_last().filter(p);
                let k = choose|k: int| 0 <= k < f.push(s.last()).len() && f.push(s.last())[k] == x;
                assert(f[k] == x);
            }
            lemma_filter_subset(s.drop_last(), p, x);
            let j = choose|j: int| 0 <= j < s.drop_last().len() && s.drop_last()[j] == x;
            assert(s[j] == x);
        }
    }
}

/// On a definition already in Chomsky-compatible shape with no empty
/// terminals, merging terminals and stripping empties changes nothing.
pub proof fn lemma_conc_strip_shaped(d: Seq<TokenModel>)
    requires
        d.len() <= 2,
        d.len() == 1 ==> d[0] is T && d[0]->T_0.len() > 0,
        d.len() == 2 ==> d[0] is NT && d[1] is NT,
    ensures
        strip_def(conc_def(d)) == d,
{
    reveal_with_fuel(Seq::filter, 8);
    let e = Seq::<char>::empty();
    let empty = Seq::<TokenModel>::empty();
    assert(conc_from(empty, e) =~= seq![TokenModel::T(e)]);
    if d.len() == 0 {
        assert(d =~= empty);
        assert(conc_def(d) =~= seq![TokenModel::T(e)]);
        assert(conc_def(d).drop_last() =~= empty);
        assert(strip_def(conc_def(d)) =~= d);
    } else if d.len() == 1 {
        let t = d[0]->T_0;
        assert(d[0] == TokenModel::T(t));
        assert(d.drop_first() =~= empty);
        assert(e + t =~= t);
        assert(conc_from(d.drop_first(), e + t) == conc_from(empty, t));
        assert(conc_from(empty, t) =~= seq![TokenModel::T(t)]);
        assert(conc_def(d) =~= seq![TokenModel::T(t)]);
        assert(conc_def(d).drop_last() =~= empty);
        assert(strip_def(conc_def(d)) =~= d);
    } else {
        let a = d[0]->NT_0;
        let b = d[1]->NT_0;
        assert(d[0] == TokenModel::NT(a));
        assert(d[1] == TokenModel::NT(b));
        let d1 = d.drop_first();
        assert(d1.len() == 1);
        assert(d1[0] == d[1]);
        assert(d1.drop_first() =~= empty);
        assert(conc_from(d1.drop_first(), e) == conc_from(empty, e));
        assert(conc_from(d1, e) =~= seq![TokenModel::T(e), TokenModel::NT(b), TokenModel::T(e)]);
        let c = conc_def(d);
        assert(c =~= seq![
            TokenModel::T(e),
            TokenModel::NT(a),
            TokenModel::T(e),
            TokenModel::NT(b),
            TokenModel::T(e),
        ]);
        let c4 = c.drop_last();
        let c3 = c4.drop_last();
        let c2 = c3.drop_last();
        let c1 = c2.drop_last();
        let c0 = c1.drop_last();
        assert(c4 =~= seq![TokenModel::T(e), TokenModel::NT(a), TokenModel::T(e), TokenModel::NT(b)]);
        assert(c3 =~= seq![TokenModel::T(e), TokenModel::NT(a), TokenModel::T(e)]);
        assert(c2 =~= seq![TokenModel::T(e), TokenModel::NT(a)]);
        assert(c1 =~= seq![TokenModel::T(e)]);
        assert(c0 =~= empty);
        assert(strip_def(c) =~= d);
    }
}



/// A definition in canonical form: no empty terminal, and no two
/// terminals standing next to each other.
pub open spec fn canonical_def(d: Seq<TokenModel>) -> bool {
    &&& forall|t: int| 0 <= t < d.len() ==> ((#[trigger] d[t]) is T ==> d[t]->T_0.len() > 0)
    &&& forall|t: int| 0 <= t < d.len() - 1 ==> !((#[trigger] d[t]) is T && d[t + 1] is T)
}

/// One piece of the idempotence of [`Grammar::simplify`]: merging
/// terminals and stripping empties leaves a definition it has already
/// canonicalized untouched.
pub proof fn lemma_conc_strip_id(d: Seq<TokenModel>)
    requires
        canonical_def(d),
    ensures
        strip_def(conc_def(d)) == d,
    decreases d.len(),
{
    reveal_with_fuel(Seq::filter, 4);
    let e = Seq::<char>::empty();
    let p = (|t: TokenModel| !t.is_empty());
    if d.len() == 0 {
        assert(conc_def(d) =~= seq![TokenModel::T(e)]);
        assert(conc_def(d).drop_last() =~= Seq::<TokenModel>::empty());
        assert(strip_def(conc_def(d)) =~= d);
    } else if d[0] is T {
        let t = d[0]->T_0;
        assert(d[0] == TokenModel::T(t));
        let d1 = d.drop_first();
        assert(e + t =~= t);
        assert(conc_def(d) == conc_from(d1, t));
        if d1.len() == 0 {
            assert(conc_from(d1, t) =~= seq![TokenModel::T(t)]);
            assert(conc_from(d1, t).drop_last() =~= Seq::<TokenModel>::empty());
            assert(strip_def(conc_def(d)) =~= d);
        } else {
            assert(d[1] == d1[0]);
            assert(!(d[0] is T && d[1] is T));
            let n = d1[0]->NT_0;
            assert(d1[0] == TokenModel::NT(n));
            let d2 = d1.drop_first();
            assert(conc_from(d1, t) == seq![TokenModel::T(t), TokenModel::NT(n)] + conc_from(
                d2,
                e,
            ));
            assert(conc_from(d2, e) == conc_def(d2));
            assert forall|k: int| 0 <= k < d2.len() implies ((#[trigger] d2[k]) is T ==> d2[k]->T_0.len()
                > 0) && (k < d2.len() - 1 ==> !(d2[k] is T && d2[k + 1] is T)) by {
                assert(d2[k] == d[k + 2]);
                if k < d2.len() - 1 {
                    assert(d2[k + 1] == d[k + 3]);
                }
            }
            assert(canonical_def(d2));
            lemma_conc_strip_id(d2);
            Seq::filter_distributes_over_add(
                seq![TokenModel::T(t), TokenModel::NT(n)],
                conc_def(d2),
                p,
            );
            assert(seq![TokenModel::T(t), TokenModel::NT(n)].filter(p) =~= seq![
                TokenModel::T(t),
                TokenModel::NT(n),
            ]);
            assert(strip_def(conc_def(d)) =~= seq![TokenModel::T(t), TokenModel::NT(n)] + d2);
            assert(strip_def(conc_def(d)) =~= d);
        }
    } else {
        let n = d[0]->NT_0;
        assert(d[0] == TokenModel::NT(n));
        let d1 = d.drop_first();
        assert(conc_def(d) == seq![TokenModel::T(e), TokenModel::NT(n)] + conc_from(d1, e));
        assert(conc_from(d1, e) == conc_def(d1));
        assert forall|k: int| 0 <= k < d1.len() implies ((#[trigger] d1[k]) is T ==> d1[k]->T_0.len()
            > 0) && (k < d1.len() - 1 ==> !(d1[k] is T && d1[k + 1] is T)) by {
            assert(d1[k] == d[k + 1]);
            if k < d1.len() - 1 {
                assert(d1[k + 1] == d[k + 2]);
            }
        }
        assert(canonical_def(d1));
        lemma_conc_strip_id(d1);
        Seq::filter_distributes_over_add(seq![TokenModel::T(e), TokenModel::NT(n)], conc_def(d1), p);
        assert(seq![TokenModel::T(e), TokenModel::NT(n)].filter(p) =~= seq![TokenModel::NT(n)]);
        assert(strip_def(conc_def(d)) =~= seq![TokenModel::NT(n)] + d1);
        assert(strip_def(conc_def(d)) =~= d);
    }
}

/// Merging terminals and stripping empties always leaves a canonical
/// definition.
pub proof fn lemma_conc_strip_canonical(d: Seq<TokenModel>)
    ensures
        canonical_def(strip_def(conc_def(d))),
    decreases d.len(),
{
    reveal_with_fuel(Seq::filter, 4);
    let e = Seq::<char>::empty();
    let p = (|t: TokenModel| !t.is_empty());
    let out = strip_def(conc_def(d));
    assert forall|t: int| 0 <= t < out.len() implies ((#[trigger] out[t]) is T ==> out[t]->T_0.len()
        > 0) by {
        Seq::lemma_filter_pred(conc_def(d), p, t);
    }
    assert forall|t: int| 0 <= t < out.len() - 1 implies !((#[trigger] out[t]) is T && out[t
        + 1] is T) by {
        lemma_strip_conc_alternates(d, Seq::<char>::empty(), t);
    }
}

/// In a merged-and-stripped definition no two terminals are adjacent:
/// the merge puts a rule reference after every terminal it emits except
/// the last.
pub proof fn lemma_strip_conc_alternates(d: Seq<TokenModel>, acc: Seq<char>, t: int)
    requires
        0 <= t < strip_def(conc_from(d, acc)).len() - 1,
    ensures
        !((strip_def(conc_from(d, acc))[t]) is T && strip_def(conc_from(d, acc))[t + 1] is T),
    decreases d.len(),
{
    reveal_with_fuel(Seq::filter, 4);
    let p = (|x: TokenModel| !x.is_empty());
    let e = Seq::<char>::empty();
    if d.len() == 0 {
        assert(conc_from(d, acc) =~= seq![TokenModel::T(acc)]);
        assert(conc_from(d, acc).drop_last() =~= Seq::<TokenModel>::empty());
        assert(strip_def(conc_from(d, acc)).len() <= 1);
    } else {
        match d[0] {
            TokenModel::T(s) => {
                assert(conc_from(d, acc) == conc_from(d.drop_first(), acc + s));
                lemma_strip_conc_alternates(d.drop_first(), acc + s, t);
            },
            TokenModel::NT(n) => {
                let head = seq![TokenModel::T(acc), TokenModel::NT(n)];
                let tail = conc_from(d.drop_first(), e);
                assert(conc_from(d, acc) == head + tail);
                Seq::filter_distributes_over_add(head, tail, p);
                let fh = head.filter(p);
                let ft = tail.filter(p);
                assert(strip_def(conc_from(d, acc)) == fh + ft);
                if acc.len() > 0 {
                    assert(fh =~= seq![TokenModel::T(acc), TokenModel::NT(n)]);
                } else {
                    assert(fh =~= seq![TokenModel::NT(n)]);
                }
                assert(ft == strip_def(conc_from(d.drop_first(), e)));
                if t + 1 < fh.len() {
                    assert(fh[t + 1] == TokenModel::NT(n));
                } else if t < fh.len() {
                    // the pair straddles the boundary; the boundary's left
                    // side ends in a rule reference
                    assert(fh[fh.len() - 1] == TokenModel::NT(n));
                    assert((fh + ft)[t] == fh[t]);
                } else {
                    lemma_strip_conc_alternates(d.drop_first(), e, t - fh.len());
                    assert((fh + ft)[t] == ft[t - fh.len()]);
                    assert((fh + ft)[t + 1] == ft[t + 1 - fh.len()]);
                }
            },
        }
    }
}


/// A filter that keeps everything returns the sequence itself.
pub proof fn lemma_filter_all<A>(s: Seq<A>, p: spec_fn(A) -> bool)
    requires
        forall|i: int| 0 <= i < s.len() ==> p(#[trigger] s[i]),
    ensures
        s.filter(p) == s,
    decreases s.len(),
{
    reveal(Seq::filter);
    if s.len() > 0 {
        lemma_filter_all(s.drop_last(), p);
        assert(s.filter(p) =~= s);
    } else {
        assert(s.filter(p) =~= s);
    }
}

/// Filtering keeps a rule's alternatives strictly sorted.
pub proof fn lemma_filter_sorted(s: Seq<Seq<TokenModel>>, p: spec_fn(Seq<TokenModel>) -> bool)
    requires
        strictly_sorted_rule(s),
    ensures
        strictly_sorted_rule(s.filter(p)),
    decreases s.len(),
{
    reveal(Seq::filter);
    if s.len() > 0 {
        assert(strictly_sorted_rule(s.drop_last()));
        lemma_filter_sorted(s.drop_last(), p);
        let f = s.drop_last().filter(p);
        if p(s.last()) {
            assert forall|i: int, j: int|
                0 <= i < j < f.push(s.last()).len() implies def_lt(
                f.push(s.last())[i],
                f.push(s.last())[j],
            ) by {
                if j < f.len() {
                    assert(f.push(s.last())[i] == f[i] && f.push(s.last())[j] == f[j]);
                } else {
                    assert(f.push(s.last())[i] == f[i]);
                    assert(f.contains(f[i]));
                    lemma_filter_subset(s.drop_last(), p, f[i]);
                    let k = choose|k: int| 0 <= k < s.drop_last().len() && s.drop_last()[k] == f[i];
                    assert(s[k] == f[i]);
                    assert(def_lt(s[k], s[s.len() - 1]));
                }
            }
        }
    }
}

/// One piece of the idempotence of [`Grammar::simplify`]: sorting and
/// deduplication yield the one strictly sorted rule with a given set of
/// alternatives, so a second pass reproduces a sorted rule exactly.
pub proof fn lemma_sorted_unique_eq(a: Seq<Seq<TokenModel>>, b: Seq<Seq<TokenModel>>)
    requires
        strictly_sorted_rule(a),
        strictly_sorted_rule(b),
        forall|x: Seq<TokenModel>| #[trigger] a.contains(x) <==> b.contains(x),
    ensures
        a == b,
    decreases a.len(),
{
    if a.len() == 0 {
        if b.len() > 0 {
            assert(b.contains(b[0]));
            assert(a.contains(b[0]));
            let i = choose|i: int| 0 <= i < a.len() && a[i] == b[0];
            assert(false);
        }
        assert(a =~= b);
    } else if b.len() == 0 {
        assert(a.contains(a[0]));
        assert(b.contains(a[0]));
        let i = choose|i: int| 0 <= i < b.len() && b[i] == a[0];
        assert(false);
    } else {
        assert(a.contains(a[0]));
        assert(b.contains(b[0]));
        assert(b.contains(a[0]));
        assert(a.contains(b[0]));
        let j = choose|j: int| 0 <= j < b.len() && b[j] == a[0];
        let i = choose|i: int| 0 <= i < a.len() && a[i] == b[0];
        if a[0] != b[0] {
            assert(j > 0);
            assert(i > 0);
            assert(def_lt(b[0], b[j]));
            assert(def_lt(a[0], a[i]));
            lemma_def_lt_asym(a[0], b[0]);
            assert(false);
        }
        let a1 = a.drop_first();
        let b1 = b.drop_first();
        assert(strictly_sorted_rule(a1)) by {
            assert forall|x: int, y: int| 0 <= x < y < a1.len() implies def_lt(a1[x], a1[y]) by {
                assert(a1[x] == a[x + 1] && a1[y] == a[y + 1]);
            }
        }
        assert(strictly_sorted_rule(b1)) by {
            assert forall|x: int, y: int| 0 <= x < y < b1.len() implies def_lt(b1[x], b1[y]) by {
                assert(b1[x] == b[x + 1] && b1[y] == b[y + 1]);
            }
        }
        assert forall|x: Seq<TokenModel>| #[trigger] a1.contains(x) implies b1.contains(x) by {
            let k = choose|k: int| 0 <= k < a1.len() && a1[k] == x;
            assert(a[k + 1] == x);
            assert(a.contains(x));
            assert(b.contains(x));
            let k2 = choose|k2: int| 0 <= k2 < b.len() && b[k2] == x;
            if k2 == 0 {
                assert(x == a[0]);
                assert(def_lt(a[0], a[k + 1]));
                lemma_def_lt_asym(a[0], a[0]);
                assert(false);
            }
            assert(b1[k2 - 1] == x);
        }
        assert forall|x: Seq<TokenModel>| #[trigger] b1.contains(x) implies a1.contains(x) by {
            let k = choose|k: int| 0 <= k < b1.len() && b1[k] == x;
            assert(b[k + 1] == x);
            assert(b.contains(x));
            assert(a.contains(x));
            let k2 = choose|k2: int| 0 <= k2 < a.len() && a[k2] == x;
            if k2 == 0 {
                assert(x == b[0]);
                assert(def_lt(b[0], b[k + 1]));
                lemma_def_lt_asym(b[0], b[0]);
                assert(false);
            }
            assert(a1[k2 - 1] == x);
        }
        lemma_sorted_unique_eq(a1, b1);
        crate::order::lemma_head_tail_eq(a, b);
    }
}



/// The canonicalization stage: merging terminals then stripping empties
/// leaves every definition canonical, and changes nothing on a grammar
/// that is already simplified.
#[verifier::rlimit(50)]
proof fn lemma_stage_canon(g0: GrammarModel, g1: GrammarModel, g2: GrammarModel)
    requires
        g0.wf(),
        g1.start == g0.start,
        g1.rules.len() == g0.rules.len(),
        forall|r: int|
            0 <= r < g0.rules.len() ==> (#[trigger] g1.rules[r]).len() == g0.rules[r].len(),
        forall|r: int, d: int|
            0 <= r < g0.rules.len() && 0 <= d < g0.rules[r].len() ==> g1.rules[r][d] == conc_def(
                #[trigger] g0.rules[r][d],
            ),
        g2.start == g1.start,
        g2.rules.len() == g1.rules.len(),
        forall|r: int|
            0 <= r < g1.rules.len() ==> (#[trigger] g2.rules[r]).len() == g1.rules[r].len(),
        forall|r: int, d: int|
            0 <= r < g1.rules.len() && 0 <= d < g1.rules[r].len() ==> g2.rules[r][d] == strip_def(
                #[trigger] g1.rules[r][d],
            ),
    ensures
        g2.wf(),
        terminals_nonempty(g2.rules),
        forall|r: int, d: int|
            0 <= r < g2.rules.len() && 0 <= d < g2.rules[r].len() ==> canonical_def(
                #[trigger] g2.rules[r][d],
            ),
{
    assert forall|r: int, d: int|
        0 <= r < g2.rules.len() && 0 <= d < g2.rules[r].len() implies canonical_def(
        #[trigger] g2.rules[r][d],
    ) by {
        assert(g2.rules[r][d] == strip_def(g1.rules[r][d]));
        assert(g1.rules[r][d] == conc_def(g0.rules[r][d]));
        lemma_conc_strip_canonical(g0.rules[r][d]);
    }
    let p = (|t: TokenModel| !t.is_empty());
    assert forall|r: int, d: int, t: int|
        0 <= r < g2.rules.len() && 0 <= d < g2.rules[r].len() && 0 <= t < g2.rules[r][d].len()
            implies ((#[trigger] g2.rules[r][d][t]) is NT ==> 0 <= (g2.rules[r][d][t])->NT_0
            < g2.rules.len()) && (g2.rules[r][d][t] is T ==> g2.rules[r][d][t]->T_0.len() > 0) by {
        assert(g2.rules[r][d] == strip_def(g1.rules[r][d]));
        assert(g2.rules[r].len() == g1.rules[r].len());
        Seq::lemma_filter_pred(g1.rules[r][d], p, t);
        if g2.rules[r][d][t] is NT {
            assert(g2.rules[r][d].contains(g2.rules[r][d][t]));
            lemma_filter_subset(g1.rules[r][d], p, g2.rules[r][d][t]);
            let j = choose|j: int|
                0 <= j < g1.rules[r][d].len() && g1.rules[r][d][j] == g2.rules[r][d][t];
            assert(g1.rules[r][d] == conc_def(g0.rules[r][d]));
            lemma_conc_from_nts(g0.rules[r][d], Seq::<char>::empty(), j);
        }
    }
    assert(g2.wf());
    assert(terminals_nonempty(g2.rules));
}

/// The canonicalization stage preserves Chomsky-compatible shape and is
/// the identity on a simplified grammar.
proof fn lemma_stage_canon_same(g0: GrammarModel, g1: GrammarModel, g2: GrammarModel)
    requires
        g0.wf(),
        g1.start == g0.start,
        g1.rules.len() == g0.rules.len(),
        forall|r: int|
            0 <= r < g0.rules.len() ==> (#[trigger] g1.rules[r]).len() == g0.rules[r].len(),
        forall|r: int, d: int|
            0 <= r < g0.rules.len() && 0 <= d < g0.rules[r].len() ==> g1.rules[r][d] == conc_def(
                #[trigger] g0.rules[r][d],
            ),
        g2.start == g1.start,
        g2.rules.len() == g1.rules.len(),
        forall|r: int|
            0 <= r < g1.rules.len() ==> (#[trigger] g2.rules[r]).len() == g1.rules[r].len(),
        forall|r: int, d: int|
            0 <= r < g1.rules.len() && 0 <= d < g1.rules[r].len() ==> g2.rules[r][d] == strip_def(
                #[trigger] g1.rules[r][d],
            ),
    ensures
        cnf_shaped(g0.rules, g0.start) && terminals_nonempty(g0.rules) ==> cnf_shaped(
            g2.rules,
            g2.start,
        ),
        simplified(g0) ==> g2.rules == g0.rules && g2.start == g0.start,
{
    if cnf_shaped(g0.rules, g0.start) && terminals_nonempty(g0.rules) {
        assert forall|r: int, d: int|
            0 <= r < g2.rules.len() && 0 <= d < g2.rules[r].len() implies (#[trigger] g2.rules[r][d])
            == g0.rules[r][d] by {
            assert(g2.rules[r][d] == strip_def(conc_def(g0.rules[r][d])));
            assert(g0.rules[r][d].len() == 1 ==> g0.rules[r][d][0] is T && g0.rules[r][d][0]->T_0.len()
                > 0);
            lemma_conc_strip_shaped(g0.rules[r][d]);
        }
        assert(cnf_shaped(g2.rules, g2.start));
    }
    if simplified(g0) {
        assert forall|r: int| 0 <= r < g2.rules.len() implies #[trigger] g2.rules[r]
            == g0.rules[r] by {
            assert forall|d: int| 0 <= d < g2.rules[r].len() implies #[trigger] g2.rules[r][d]
                == g0.rules[r][d] by {
                assert(g2.rules[r][d] == strip_def(g1.rules[r][d]));
                assert(g1.rules[r][d] == conc_def(g0.rules[r][d]));
                assert(canonical_def(g0.rules[r][d]));
                lemma_conc_strip_id(g0.rules[r][d]);
            }
            assert(g2.rules[r] =~= g0.rules[r]);
        }
        assert(g2.rules =~= g0.rules);
    }
}

/// The deduplication stage: sorted duplicate-free rules with canonical
/// definitions, unchanged on a grammar that is already simplified.
proof fn lemma_stage_dedup(g0: GrammarModel, g2: GrammarModel, g3: GrammarModel)
    requires
        g2.wf(),
        terminals_nonempty(g2.rules),
        cnf_shaped(g0.rules, g0.start) && terminals_nonempty(g0.rules) ==> cnf_shaped(
            g2.rules,
            g2.start,
        ),
        forall|r: int, d: int|
            0 <= r < g2.rules.len() && 0 <= d < g2.rules[r].len() ==> canonical_def(
                #[trigger] g2.rules[r][d],
            ),
        g3.start == g2.start,
        g3.rules.len() == g2.rules.len(),
        forall|r: int| 0 <= r < g2.rules.len() ==> strictly_sorted_rule(#[trigger] g3.rules[r]),
        forall|r: int, x: Seq<TokenModel>|
            0 <= r < g2.rules.len() ==> ((#[trigger] g3.rules[r].contains(x))
                <==> g2.rules[r].contains(x)),
        simplified(g0) ==> g2.rules == g0.rules && g2.start == g0.start,
    ensures
        g3.wf(),
        terminals_nonempty(g3.rules),
        cnf_shaped(g0.rules, g0.start) && terminals_nonempty(g0.rules) ==> cnf_shaped(
            g3.rules,
            g3.start,
        ),
        forall|r: int, d: int|
            0 <= r < g3.rules.len() && 0 <= d < g3.rules[r].len() ==> canonical_def(
                #[trigger] g3.rules[r][d],
            ),
        forall|r: int| 0 <= r < g3.rules.len() ==> strictly_sorted_rule(#[trigger] g3.rules[r]),
        simplified(g0) ==> g3.rules == g0.rules && g3.start == g0.start,
{
    let shaped = cnf_shaped(g0.rules, g0.start) && terminals_nonempty(g0.rules);
    assert forall|r: int, d: int|
        0 <= r < g3.rules.len() && 0 <= d < g3.rules[r].len() implies canonical_def(
        #[trigger] g3.rules[r][d],
    ) && (exists|d2: int|
        0 <= d2 < g2.rules[r].len() && #[trigger] g2.rules[r][d2] == g3.rules[r][d]) by {
        assert(g3.rules[r].contains(g3.rules[r][d]));
        assert(g2.rules[r].contains(g3.rules[r][d]));
        let d2 = choose|d2: int| 0 <= d2 < g2.rules[r].len() && g2.rules[r][d2] == g3.rules[r][d];
        assert(canonical_def(g2.rules[r][d2]));
    }
    assert forall|r: int, d: int, t: int|
        0 <= r < g3.rules.len() && 0 <= d < g3.rules[r].len() && 0 <= t < g3.rules[r][d].len()
            implies ((#[trigger] g3.rules[r][d][t]) is NT ==> 0 <= (g3.rules[r][d][t])->NT_0
            < g3.rules.len()) && (g3.rules[r][d][t] is T ==> g3.rules[r][d][t]->T_0.len() > 0) by {
        let d2 = choose|d2: int|
            0 <= d2 < g2.rules[r].len() && #[trigger] g2.rules[r][d2] == g3.rules[r][d];
    }
    assert(g3.wf());
    assert(terminals_nonempty(g3.rules));
    if shaped {
        assert forall|r: int, d: int|
            0 <= r < g3.rules.len() && 0 <= d < g3.rules[r].len() implies {
            let def = #[trigger] g3.rules[r][d];
            &&& def.len() <= 2
            &&& (def.len() == 0 ==> r == g3.start)
            &&& (def.len() == 1 ==> def[0] is T)
            &&& (def.len() == 2 ==> def[0] is NT && def[1] is NT)
        } by {
            let d2 = choose|d2: int|
                0 <= d2 < g2.rules[r].len() && #[trigger] g2.rules[r][d2] == g3.rules[r][d];
        }
        assert(cnf_shaped(g3.rules, g3.start));
    }
    if simplified(g0) {
        assert forall|r: int| 0 <= r < g3.rules.len() implies #[trigger] g3.rules[r]
            == g0.rules[r] by {
            assert(strictly_sorted_rule(g3.rules[r]));
            assert(g2.rules[r] == g0.rules[r]);
            assert(strictly_sorted_rule(g2.rules[r]));
            lemma_sorted_unique_eq(g3.rules[r], g2.rules[r]);
        }
        assert(g3.rules =~= g0.rules);
    }
}

/// The self-loop stage: definitions stay canonical and sorted, no rule
/// keeps a lone reference to itself, and a grammar that is already
/// simplified is left untouched.
proof fn lemma_stage_cycles(g0: GrammarModel, g3: GrammarModel, g4: GrammarModel)
    requires
        g3.wf(),
        terminals_nonempty(g3.rules),
        cnf_shaped(g0.rules, g0.start) && terminals_nonempty(g0.rules) ==> cnf_shaped(
            g3.rules,
            g3.start,
        ),
        forall|r: int, d: int|
            0 <= r < g3.rules.len() && 0 <= d < g3.rules[r].len() ==> canonical_def(
                #[trigger] g3.rules[r][d],
            ),
        forall|r: int| 0 <= r < g3.rules.len() ==> strictly_sorted_rule(#[trigger] g3.rules[r]),
        g4.start == g3.start,
        g4.rules.len() == g3.rules.len(),
        forall|r: int|
            0 <= r < g3.rules.len() ==> #[trigger] g4.rules[r] == g3.rules[r].filter(
                |d: Seq<TokenModel>| d != seq![TokenModel::NT(r)],
            ),
        simplified(g0) ==> g3.rules == g0.rules && g3.start == g0.start,
    ensures
        g4.wf(),
        terminals_nonempty(g4.rules),
        cnf_shaped(g0.rules, g0.start) && terminals_nonempty(g0.rules) ==> cnf_shaped(
            g4.rules,
            g4.start,
        ),
        forall|r: int, d: int|
            0 <= r < g4.rules.len() && 0 <= d < g4.rules[r].len() ==> canonical_def(
                #[trigger] g4.rules[r][d],
            ),
        forall|r: int| 0 <= r < g4.rules.len() ==> strictly_sorted_rule(#[trigger] g4.rules[r]),
        forall|r: int, d: int|
            0 <= r < g4.rules.len() && 0 <= d < g4.rules[r].len() ==> (#[trigger] g4.rules[r][d])
                != seq![TokenModel::NT(r)],
        simplified(g0) ==> g4.rules == g0.rules && g4.start == g0.start,
{
    let shaped = cnf_shaped(g0.rules, g0.start) && terminals_nonempty(g0.rules);
    assert forall|r: int, d: int|
        0 <= r < g4.rules.len() && 0 <= d < g4.rules[r].len() implies canonical_def(
        #[trigger] g4.rules[r][d],
    ) && g4.rules[r][d] != seq![TokenModel::NT(r)] && (exists|d2: int|
        0 <= d2 < g3.rules[r].len() && #[trigger] g3.rules[r][d2] == g4.rules[r][d]) by {
        let pr = (|x: Seq<TokenModel>| x != seq![TokenModel::NT(r)]);
        assert(g4.rules[r] == g3.rules[r].filter(pr));
        Seq::lemma_filter_pred(g3.rules[r], pr, d);
        assert(g4.rules[r].contains(g4.rules[r][d]));
        lemma_filter_subset(g3.rules[r], pr, g4.rules[r][d]);
        let d2 = choose|d2: int| 0 <= d2 < g3.rules[r].len() && g3.rules[r][d2] == g4.rules[r][d];
        assert(canonical_def(g3.rules[r][d2]));
    }
    assert forall|r: int, d: int, t: int|
        0 <= r < g4.rules.len() && 0 <= d < g4.rules[r].len() && 0 <= t < g4.rules[r][d].len()
            implies ((#[trigger] g4.rules[r][d][t]) is NT ==> 0 <= (g4.rules[r][d][t])->NT_0
            < g4.rules.len()) && (g4.rules[r][d][t] is T ==> g4.rules[r][d][t]->T_0.len() > 0) by {
        let d2 = choose|d2: int|
            0 <= d2 < g3.rules[r].len() && #[trigger] g3.rules[r][d2] == g4.rules[r][d];
    }
    assert(g4.wf());
    assert(terminals_nonempty(g4.rules));
    if shaped {
        assert forall|r: int, d: int|
            0 <= r < g4.rules.len() && 0 <= d < g4.rules[r].len() implies {
            let def = #[trigger] g4.rules[r][d];
            &&& def.len() <= 2
            &&& (def.len() == 0 ==> r == g4.start)
            &&& (def.len() == 1 ==> def[0] is T)
            &&& (def.len() == 2 ==> def[0] is NT && def[1] is NT)
        } by {
            let d2 = choose|d2: int|
                0 <= d2 < g3.rules[r].len() && #[trigger] g3.rules[r][d2] == g4.rules[r][d];
        }
        assert(cnf_shaped(g4.rules, g4.start));
    }
    assert forall|r: int| 0 <= r < g4.rules.len() implies strictly_sorted_rule(
        #[trigger] g4.rules[r],
    ) by {
        let pr = (|x: Seq<TokenModel>| x != seq![TokenModel::NT(r)]);
        assert(g4.rules[r] == g3.rules[r].filter(pr));
        lemma_filter_sorted(g3.rules[r], pr);
    }
    if simplified(g0) {
        assert forall|r: int| 0 <= r < g4.rules.len() implies #[trigger] g4.rules[r]
            == g0.rules[r] by {
            let pr = (|x: Seq<TokenModel>| x != seq![TokenModel::NT(r)]);
            assert(g4.rules[r] == g3.rules[r].filter(pr));
            assert(g3.rules[r] == g0.rules[r]);
            assert forall|d: int| 0 <= d < g3.rules[r].len() implies pr(
                #[trigger] g3.rules[r][d],
            ) by {
                assert(g0.rules[r][d] != seq![TokenModel::NT(r)]);
            }
            lemma_filter_all(g3.rules[r], pr);
        }
        assert(g4.rules =~= g0.rules);
    }
}

/// The productivity stage: rules stay canonical, sorted and free of
/// self-loops, every rule can produce a word or is cleared, and a
/// grammar that is already simplified is left untouched.
proof fn lemma_stage_flatten(g0: GrammarModel, g4: GrammarModel, g5: GrammarModel)
    requires
        g4.wf(),
        terminals_nonempty(g4.rules),
        cnf_shaped(g0.rules, g0.start) && terminals_nonempty(g0.rules) ==> cnf_shaped(
            g4.rules,
            g4.start,
        ),
        forall|r: int, d: int|
            0 <= r < g4.rules.len() && 0 <= d < g4.rules[r].len() ==> canonical_def(
                #[trigger] g4.rules[r][d],
            ),
        forall|r: int| 0 <= r < g4.rules.len() ==> strictly_sorted_rule(#[trigger] g4.rules[r]),
        forall|r: int, d: int|
            0 <= r < g4.rules.len() && 0 <= d < g4.rules[r].len() ==> (#[trigger] g4.rules[r][d])
                != seq![TokenModel::NT(r)],
        g5.start == g4.start,
        g5.rules.len() == g4.rules.len(),
        forall|r: int|
            0 <= r < g4.rules.len() ==> #[trigger] g5.rules[r] == if possible(g4.rules, r) {
                g4.rules[r]
            } else {
                Seq::<Seq<TokenModel>>::empty()
            },
        simplified(g0) ==> g4.rules == g0.rules && g4.start == g0.start,
    ensures
        g5.wf(),
        terminals_nonempty(g5.rules),
        cnf_shaped(g0.rules, g0.start) && terminals_nonempty(g0.rules) ==> cnf_shaped(
            g5.rules,
            g5.start,
        ),
        forall|r: int, d: int|
            0 <= r < g5.rules.len() && 0 <= d < g5.rules[r].len() ==> canonical_def(
                #[trigger] g5.rules[r][d],
            ),
        forall|r: int| 0 <= r < g5.rules.len() ==> strictly_sorted_rule(#[trigger] g5.rules[r]),
        forall|r: int, d: int|
            0 <= r < g5.rules.len() && 0 <= d < g5.rules[r].len() ==> (#[trigger] g5.rules[r][d])
                != seq![TokenModel::NT(r)],
        forall|r: int|
            0 <= r < g5.rules.len() ==> (possible(g5.rules, r) || (#[trigger] g5.rules[r]).len()
                == 0),
        simplified(g0) ==> g5.rules == g0.rules && g5.start == g0.start,
{
    let shaped = cnf_shaped(g0.rules, g0.start) && terminals_nonempty(g0.rules);
    assert forall|r: int, d: int, t: int|
        0 <= r < g5.rules.len() && 0 <= d < g5.rules[r].len() && 0 <= t < g5.rules[r][d].len()
            implies ((#[trigger] g5.rules[r][d][t]) is NT ==> 0 <= (g5.rules[r][d][t])->NT_0
            < g5.rules.len()) && (g5.rules[r][d][t] is T ==> g5.rules[r][d][t]->T_0.len() > 0) by {
        assert(g5.rules[r] == if possible(g4.rules, r) {
            g4.rules[r]
        } else {
            Seq::<Seq<TokenModel>>::empty()
        });
    }
    assert(g5.wf());
    assert(terminals_nonempty(g5.rules));
    if shaped {
        assert forall|r: int, d: int|
            0 <= r < g5.rules.len() && 0 <= d < g5.rules[r].len() implies {
            let def = #[trigger] g5.rules[r][d];
            &&& def.len() <= 2
            &&& (def.len() == 0 ==> r == g5.start)
            &&& (def.len() == 1 ==> def[0] is T)
            &&& (def.len() == 2 ==> def[0] is NT && def[1] is NT)
        } by {
            assert(g5.rules[r] == if possible(g4.rules, r) {
                g4.rules[r]
            } else {
                Seq::<Seq<TokenModel>>::empty()
            });
        }
        assert(cnf_shaped(g5.rules, g5.start));
    }
    assert forall|r: int, d: int|
        0 <= r < g5.rules.len() && 0 <= d < g5.rules[r].len() implies canonical_def(
        #[trigger] g5.rules[r][d],
    ) && g5.rules[r][d] != seq![TokenModel::NT(r)] by {
        assert(g5.rules[r] == if possible(g4.rules, r) {
            g4.rules[r]
        } else {
            Seq::<Seq<TokenModel>>::empty()
        });
    }
    assert forall|r: int| 0 <= r < g5.rules.len() implies strictly_sorted_rule(
        #[trigger] g5.rules[r],
    ) by {
        assert(g5.rules[r] == if possible(g4.rules, r) {
            g4.rules[r]
        } else {
            Seq::<Seq<TokenModel>>::empty()
        });
    }
    assert forall|r: int|
        0 <= r < g5.rules.len() && (#[trigger] g5.rules[r]).len() > 0 implies possible(
        g5.rules,
        r,
    ) by {
        assert(g5.rules[r] == if possible(g4.rules, r) {
            g4.rules[r]
        } else {
            Seq::<Seq<TokenModel>>::empty()
        });
        assert(possible(g4.rules, r));
        let k = choose|k: nat| possible_avoid(g4.rules, Set::<int>::empty(), r, k);
        lemma_possible_flatten(g4.rules, g5.rules, Set::<int>::empty(), r, k);
    }
    if simplified(g0) {
        assert forall|r: int| 0 <= r < g5.rules.len() implies #[trigger] g5.rules[r]
            == g0.rules[r] by {
            assert(g5.rules[r] == if possible(g4.rules, r) {
                g4.rules[r]
            } else {
                Seq::<Seq<TokenModel>>::empty()
            });
            assert(g4.rules[r] == g0.rules[r]);
            if !possible(g4.rules, r) {
                assert(g0.rules[r].len() == 0);
                assert(g5.rules[r] =~= g0.rules[r]);
            }
        }
        assert(g5.rules =~= g0.rules);
    }
}

/// Simplification is idempotent: one pass leaves a simplified grammar,
/// and a pass over a simplified grammar changes neither the rule table
/// nor the start — so applying `simplify` twice yields the same rule
/// set as applying it once. The two hypotheses are precisely what
/// [`Grammar::simplify`] ensures of a first and of a second run.
pub proof fn lemma_simplify_idempotent(g1: GrammarModel, g2: GrammarModel)
    requires
        simplified(g1),
        simplified(g1) ==> g2.rules == g1.rules && g2.start == g1.start,
    ensures
        g2.rules == g1.rules,
        g2.start == g1.start,
{
}

/// What one cleanup pass leaves behind: valid references, canonical
/// definitions, sorted duplicate-free rules, no direct self-loops,
/// every rule productive or cleared, and every rule reachable.
pub open spec fn simplified(g: GrammarModel) -> bool {
    &&& g.wf()
    &&& terminals_nonempty(g.rules)
    &&& forall|r: int, d: int|
        0 <= r < g.rules.len() && 0 <= d < g.rules[r].len() ==> canonical_def(
            #[trigger] g.rules[r][d],
        )
    &&& forall|r: int| 0 <= r < g.rules.len() ==> strictly_sorted_rule(#[trigger] g.rules[r])
    &&& forall|r: int, d: int|
        0 <= r < g.rules.len() && 0 <= d < g.rules[r].len() ==> (#[trigger] g.rules[r][d])
            != seq![TokenModel::NT(r)]
    &&& forall|r: int|
        0 <= r < g.rules.len() ==> (possible(g.rules, r) || (#[trigger] g.rules[r]).len() == 0)
    &&& forall|r: int|
        0 <= r < g.rules.len() ==> #[trigger] reachable(g.rules, g.start, r)
}


/// Rule `i` of the original table reappears remapped at compacted
/// index `p`.
pub open spec fn unreach_wit(g5: GrammarModel, g6: GrammarModel, i: int, p: int) -> bool {
    &&& 0 <= i < g5.rules.len()
    &&& reachable(g5.rules, g5.start, i)
    &&& p == reach_upto(g5.rules, g5.start, i)
    &&& g6.rules[p] == remap_rule(g5.rules, g5.start, g5.rules[i])
}

/// The compaction relation the pass establishes.
pub open spec fn unreach_rel(g5: GrammarModel, g6: GrammarModel) -> bool {
    &&& g6.rules.len() == reach_upto(g5.rules, g5.start, g5.rules.len() as int)
    &&& g6.start == reach_upto(g5.rules, g5.start, g5.start)
    &&& forall|i: int|
        0 <= i < g5.rules.len() && reachable(g5.rules, g5.start, i)
            ==> #[trigger] g6.rules[reach_upto(g5.rules, g5.start, i)] == remap_rule(
            g5.rules,
            g5.start,
            g5.rules[i],
        )
}

/// Every compacted index carries some reachable original rule.
proof fn lemma_unreach_wit(g5: GrammarModel, g6: GrammarModel, p: int)
    requires
        unreach_rel(g5, g6),
        0 <= p < g6.rules.len(),
    ensures
        exists|i: int| #[trigger] unreach_wit(g5, g6, i, p),
{
    lemma_reach_upto_surj(g5.rules, g5.start, g5.rules.len() as int, p);
    let i = choose|i: int|
        0 <= i < g5.rules.len() && reachable(g5.rules, g5.start, i) && reach_upto(
            g5.rules,
            g5.start,
            i,
        ) == p;
    assert(unreach_wit(g5, g6, i, p));
}

/// A rule reference inside a reachable rule is itself reachable.
proof fn lemma_rule_token_reachable(g5: GrammarModel, i: int, d: int, t: int)
    requires
        g5.wf(),
        0 <= i < g5.rules.len(),
        reachable(g5.rules, g5.start, i),
        0 <= d < g5.rules[i].len(),
        0 <= t < g5.rules[i][d].len(),
        g5.rules[i][d][t] is NT,
    ensures
        0 <= g5.rules[i][d][t]->NT_0 < g5.rules.len(),
        reachable(g5.rules, g5.start, g5.rules[i][d][t]->NT_0),
{
    let m = g5.rules[i][d][t]->NT_0;
    assert(references(g5.rules, i, m)) by {
        assert(g5.rules[i][d][t] == TokenModel::NT(m));
    }
    lemma_reachable_step(g5.rules, g5.start, i, m);
}

/// Compaction keeps definitions canonical and free of self-loops.
proof fn lemma_unreach_defs(g5: GrammarModel, g6: GrammarModel, p: int, d: int)
    requires
        g5.wf(),
        unreach_rel(g5, g6),
        forall|r: int, d2: int|
            0 <= r < g5.rules.len() && 0 <= d2 < g5.rules[r].len() ==> canonical_def(
                #[trigger] g5.rules[r][d2],
            ),
        forall|r: int, d2: int|
            0 <= r < g5.rules.len() && 0 <= d2 < g5.rules[r].len() ==> (#[trigger] g5.rules[r][d2])
                != seq![TokenModel::NT(r)],
        0 <= p < g6.rules.len(),
        0 <= d < g6.rules[p].len(),
    ensures
        canonical_def(g6.rules[p][d]),
        g6.rules[p][d] != seq![TokenModel::NT(p)],
{
    lemma_unreach_wit(g5, g6, p);
    let i = choose|i: int| #[trigger] unreach_wit(g5, g6, i, p);
    let rules = g5.rules;
    let start = g5.start;
    assert(g6.rules[p][d] == remap_def(rules, start, rules[i][d]));
    let rd = g6.rules[p][d];
    let od = rules[i][d];
    assert(rd.len() == od.len());
    assert(canonical_def(od));
    assert forall|t: int| 0 <= t < rd.len() implies ((#[trigger] rd[t]) is T ==> rd[t]->T_0.len()
        > 0) by {
        assert(rd[t] == remap_tok(rules, start, od[t]));
    }
    assert forall|t: int| 0 <= t < rd.len() - 1 implies !((#[trigger] rd[t]) is T && rd[t
        + 1] is T) by {
        assert(rd[t] == remap_tok(rules, start, od[t]));
        assert(rd[t + 1] == remap_tok(rules, start, od[t + 1]));
    }
    if rd == seq![TokenModel::NT(p)] {
        assert(od.len() == 1);
        assert(rd[0] == remap_tok(rules, start, od[0]));
        assert(od[0] is NT);
        let m = od[0]->NT_0;
        lemma_rule_token_reachable(g5, i, d, 0);
        assert(reach_upto(rules, start, m) == p);
        if m != i {
            lemma_reach_upto_injective(rules, start, m, i);
        }
        assert(m == i);
        assert(od =~= seq![TokenModel::NT(i)]);
        assert(false);
    }
}

/// Compaction keeps every rule sorted.
proof fn lemma_unreach_sorted(g5: GrammarModel, g6: GrammarModel, p: int)
    requires
        g5.wf(),
        unreach_rel(g5, g6),
        forall|r: int| 0 <= r < g5.rules.len() ==> strictly_sorted_rule(#[trigger] g5.rules[r]),
        0 <= p < g6.rules.len(),
    ensures
        strictly_sorted_rule(g6.rules[p]),
{
    lemma_unreach_wit(g5, g6, p);
    let i = choose|i: int| #[trigger] unreach_wit(g5, g6, i, p);
    let rules = g5.rules;
    let start = g5.start;
    assert forall|d: int, d2: int|
        0 <= d < d2 < g6.rules[p].len() implies def_lt(g6.rules[p][d], g6.rules[p][d2]) by {
        assert(g6.rules[p][d] == remap_def(rules, start, rules[i][d]));
        assert(g6.rules[p][d2] == remap_def(rules, start, rules[i][d2]));
        assert(def_lt(rules[i][d], rules[i][d2]));
        assert forall|t: int|
            0 <= t < rules[i][d].len() && (#[trigger] rules[i][d][t]) is NT implies 0 <= rules[i][d][t]->NT_0
            && reachable(rules, start, rules[i][d][t]->NT_0) by {
            lemma_rule_token_reachable(g5, i, d, t);
        }
        assert forall|t: int|
            0 <= t < rules[i][d2].len() && (#[trigger] rules[i][d2][t]) is NT implies 0 <= rules[i][d2][t]->NT_0
            && reachable(rules, start, rules[i][d2][t]->NT_0) by {
            lemma_rule_token_reachable(g5, i, d2, t);
        }
        lemma_remap_def_order(rules, start, rules[i][d], rules[i][d2]);
    }
}

/// Compaction keeps rules productive and makes every rule reachable.
proof fn lemma_unreach_live(g5: GrammarModel, g6: GrammarModel, p: int)
    requires
        g5.wf(),
        unreach_rel(g5, g6),
        forall|r: int|
            0 <= r < g5.rules.len() ==> (possible(g5.rules, r) || (#[trigger] g5.rules[r]).len()
                == 0),
        0 <= p < g6.rules.len(),
    ensures
        possible(g6.rules, p) || g6.rules[p].len() == 0,
        reachable(g6.rules, g6.start, p),
{
    lemma_unreach_wit(g5, g6, p);
    let i = choose|i: int| #[trigger] unreach_wit(g5, g6, i, p);
    let rules = g5.rules;
    let start = g5.start;
    assert(g6.rules[p].len() == rules[i].len());
    if g6.rules[p].len() > 0 {
        assert(possible(rules, i));
        let k = choose|k: nat| possible_avoid(rules, Set::<int>::empty(), i, k);
        lemma_possible_transport(rules, start, g6.rules, Set::<int>::empty(), i, k);
        lemma_image_empty(rules, start);
        assert(image_upto(rules, start, Set::<int>::empty()) == Set::<int>::empty());
    }
    assert(reachable(rules, start, i));
    let k2 = choose|k2: nat| reach_k(rules, start, i, k2);
    lemma_reach_transport(rules, start, g6.rules, i, k2);
}

/// One piece of the idempotence of [`Grammar::simplify`]: on a grammar
/// whose rules are all reachable from the start, the compaction pass
/// changes neither the rule table nor the start.
pub proof fn lemma_unreach_identity(g5: GrammarModel, g6: GrammarModel)
    requires
        g5.wf(),
        unreach_rel(g5, g6),
        forall|r: int| 0 <= r < g5.rules.len() ==> #[trigger] reachable(g5.rules, g5.start, r),
    ensures
        g6.rules == g5.rules,
        g6.start == g5.start,
{
    let rules = g5.rules;
    let start = g5.start;
    let n = rules.len() as int;
    lemma_reach_upto_identity(rules, start, n);
    assert(g6.rules.len() == n);
    lemma_reach_upto_identity(rules, start, start);
    assert(g6.start == g5.start);
    assert forall|i: int| 0 <= i < n implies #[trigger] g6.rules[i] == rules[i] by {
        lemma_reach_upto_identity(rules, start, i);
        assert(reachable(rules, start, i));
        assert(g6.rules[i] == remap_rule(rules, start, rules[i]));
        assert forall|d: int| 0 <= d < rules[i].len() implies #[trigger] g6.rules[i][d]
            == rules[i][d] by {
            assert(g6.rules[i][d] == remap_def(rules, start, rules[i][d]));
            let od = rules[i][d];
            assert forall|t: int| 0 <= t < od.len() implies #[trigger] remap_def(
                rules,
                start,
                od,
            )[t] == od[t] by {
                assert(remap_def(rules, start, od)[t] == remap_tok(rules, start, od[t]));
                if od[t] is NT {
                    let m = od[t]->NT_0;
                    assert(0 <= m < n);
                    lemma_reach_upto_identity(rules, start, m);
                }
            }
            assert(g6.rules[i][d] =~= rules[i][d]);
        }
        assert(g6.rules[i] =~= rules[i]);
    }
    assert(g6.rules =~= rules);
}


/// Everything compaction leaves behind, assembled: applied to a
/// grammar whose rules are canonical, sorted, free of direct
/// self-loops and productive-or-cleared, the pass yields a simplified
/// grammar, and it is the identity when every rule was reachable.
#[verifier::rlimit(40)]
pub proof fn lemma_stage_unreach(g5: GrammarModel, g6: GrammarModel)
    requires
        g5.wf(),
        forall|r: int, d: int|
            0 <= r < g5.rules.len() && 0 <= d < g5.rules[r].len() ==> canonical_def(
                #[trigger] g5.rules[r][d],
            ),
        forall|r: int| 0 <= r < g5.rules.len() ==> strictly_sorted_rule(#[trigger] g5.rules[r]),
        forall|r: int, d: int|
            0 <= r < g5.rules.len() && 0 <= d < g5.rules[r].len() ==> (#[trigger] g5.rules[r][d])
                != seq![TokenModel::NT(r)],
        forall|r: int|
            0 <= r < g5.rules.len() ==> (possible(g5.rules, r) || (#[trigger] g5.rules[r]).len()
                == 0),
        g6.wf(),
        unreach_rel(g5, g6),
    ensures
        simplified(g6),
        cnf_shaped(g5.rules, g5.start) ==> cnf_shaped(g6.rules, g6.start),
        (forall|r: int| 0 <= r < g5.rules.len() ==> #[trigger] reachable(g5.rules, g5.start, r))
            ==> g6.rules == g5.rules && g6.start == g5.start,
{
    assert forall|r: int, d: int|
        0 <= r < g6.rules.len() && 0 <= d < g6.rules[r].len() implies canonical_def(
        #[trigger] g6.rules[r][d],
    ) && g6.rules[r][d] != seq![TokenModel::NT(r)] by {
        lemma_unreach_defs(g5, g6, r, d);
    }
    assert forall|r: int| 0 <= r < g6.rules.len() implies strictly_sorted_rule(
        #[trigger] g6.rules[r],
    ) by {
        lemma_unreach_sorted(g5, g6, r);
    }
    assert forall|r: int|
        0 <= r < g6.rules.len() implies (possible(g6.rules, r) || (#[trigger] g6.rules[r]).len()
            == 0) by {
        lemma_unreach_live(g5, g6, r);
    }
    assert forall|r: int| 0 <= r < g6.rules.len() implies #[trigger] reachable(
        g6.rules,
        g6.start,
        r,
    ) by {
        lemma_unreach_live(g5, g6, r);
    }
    assert forall|r: int, d: int, t: int|
        0 <= r < g6.rules.len() && 0 <= d < g6.rules[r].len() && 0 <= t < g6.rules[r][d].len()
            && (#[trigger] g6.rules[r][d][t]) is T implies g6.rules[r][d][t]->T_0.len() > 0 by {
        assert(canonical_def(g6.rules[r][d]));
    }
    assert(terminals_nonempty(g6.rules));
    assert(simplified(g6));
    if cnf_shaped(g5.rules, g5.start) {
        assert forall|r: int, d: int|
            0 <= r < g6.rules.len() && 0 <= d < g6.rules[r].len() implies {
            let def = #[trigger] g6.rules[r][d];
            &&& def.len() <= 2
            &&& (def.len() == 0 ==> r == g6.start)
            &&& (def.len() == 1 ==> def[0] is T)
            &&& (def.len() == 2 ==> def[0] is NT && def[1] is NT)
        } by {
            lemma_unreach_wit(g5, g6, r);
            let i = choose|i: int| #[trigger] unreach_wit(g5, g6, i, r);
            assert(g6.rules[r][d] == remap_def(g5.rules, g5.start, g5.rules[i][d]));
            assert(d < g5.rules[i].len());
            let rd = g6.rules[r][d];
            let od = g5.rules[i][d];
            assert(rd.len() == od.len());
            assert forall|t: int| 0 <= t < rd.len() implies #[trigger] rd[t] == remap_tok(
                g5.rules,
                g5.start,
                od[t],
            ) by {}
            assert(od.len() == 0 ==> i == g5.start);
            if od.len() == 0 {
                assert(r == reach_upto(g5.rules, g5.start, g5.start));
                assert(r == g6.start);
            }
        }
        assert(cnf_shaped(g6.rules, g6.start));
    }
    if forall|r: int| 0 <= r < g5.rules.len() ==> #[trigger] reachable(g5.rules, g5.start, r) {
        lemma_unreach_identity(g5, g6);
    }
}

/// Stripping direct self-loop alternatives loses no derivation: a
/// derivation that walks the loop only repeats itself, and shortens to
/// one that never does.
proof fn lemma_tok_derives_uncycled(
    rules: Seq<Seq<Seq<TokenModel>>>,
    rules2: Seq<Seq<Seq<TokenModel>>>,
    t: TokenModel,
    w: Seq<char>,
    k: nat,
)
    requires
        rules2.len() == rules.len(),
        forall|r: int|
            0 <= r < rules.len() ==> #[trigger] rules2[r] == rules[r].filter(
                |d: Seq<TokenModel>| d != seq![TokenModel::NT(r)],
            ),
    ensures
        tok_derives(rules, t, w, k) ==> tok_derives(rules2, t, w, k),
    decreases k, 0int, 0int,
{
    match t {
        TokenModel::T(_) => {},
        TokenModel::NT(r) => {
            if tok_derives(rules, t, w, k) {
                let d = choose|d: int|
                    0 <= d < rules[r].len() && def_derives(
                        rules,
                        #[trigger] rules[r][d],
                        w,
                        (k - 1) as nat,
                    );
                if rules[r][d] == seq![TokenModel::NT(r)] {
                    let sdef = seq![TokenModel::NT(r)];
                    assert(def_derives(rules, sdef, w, (k - 1) as nat));
                    let i = choose|i: int|
                        0 <= i <= w.len() && tok_derives(rules, sdef[0], #[trigger] w.take(i), (k
                            - 1) as nat) && def_derives(rules, sdef.drop_first(), w.skip(i), (k
                            - 1) as nat);
                    assert(sdef.drop_first() =~= Seq::<TokenModel>::empty());
                    assert(w.skip(i).len() == 0);
                    assert(i == w.len());
                    assert(w.take(i) =~= w);
                    assert(sdef[0] == TokenModel::NT(r));
                    assert(tok_derives(rules, t, w, (k - 1) as nat));
                    lemma_tok_derives_uncycled(rules, rules2, t, w, (k - 1) as nat);
                    lemma_tok_derives_mono(rules2, t, w, (k - 1) as nat, k);
                } else {
                    lemma_def_derives_uncycled(rules, rules2, rules[r][d], w, (k - 1) as nat);
                    rules[r].lemma_filter_contains(
                        |dd: Seq<TokenModel>| dd != seq![TokenModel::NT(r)],
                        d,
                    );
                    assert(rules2[r].contains(rules[r][d]));
                    let d2 = choose|d2: int|
                        0 <= d2 < rules2[r].len() && rules2[r][d2] == rules[r][d];
                    assert(def_derives(rules2, rules2[r][d2], w, (k - 1) as nat));
                    assert(tok_derives(rules2, t, w, k));
                }
            }
        },
    }
}

/// The definition-level half of [`lemma_tok_derives_uncycled`].
proof fn lemma_def_derives_uncycled(
    rules: Seq<Seq<Seq<TokenModel>>>,
    rules2: Seq<Seq<Seq<TokenModel>>>,
    def: Seq<TokenModel>,
    w: Seq<char>,
    k: nat,
)
    requires
        rules2.len() == rules.len(),
        forall|r: int|
            0 <= r < rules.len() ==> #[trigger] rules2[r] == rules[r].filter(
                |d: Seq<TokenModel>| d != seq![TokenModel::NT(r)],
            ),
    ensures
        def_derives(rules, def, w, k) ==> def_derives(rules2, def, w, k),
    decreases k, 1int, def.len(),
{
    if def.len() > 0 && def_derives(rules, def, w, k) {
        let i = choose|i: int|
            0 <= i <= w.len() && tok_derives(rules, def[0], #[trigger] w.take(i), k)
                && def_derives(rules, def.drop_first(), w.skip(i), k);
        lemma_tok_derives_uncycled(rules, rules2, def[0], w.take(i), k);
        lemma_def_derives_uncycled(rules, rules2, def.drop_first(), w.skip(i), k);
        assert(def_derives(rules2, def, w, k));
    }
}

/// Dropping direct self-loop alternatives keeps the language.
pub proof fn lemma_cycles_language(g: GrammarModel, g2: GrammarModel, w: Seq<char>)
    requires
        g2.start == g.start,
        g2.rules.len() == g.rules.len(),
        forall|r: int|
            0 <= r < g.rules.len() ==> #[trigger] g2.rules[r] == g.rules[r].filter(
                |d: Seq<TokenModel>| d != seq![TokenModel::NT(r)],
            ),
    ensures
        g_derives(g2, w) == g_derives(g, w),
{
    if g_derives(g, w) {
        let k = choose|k: nat| #[trigger] tok_derives(g.rules, TokenModel::NT(g.start), w, k);
        lemma_tok_derives_uncycled(g.rules, g2.rules, TokenModel::NT(g.start), w, k);
        assert(tok_derives(g2.rules, TokenModel::NT(g2.start), w, k));
        assert(g_derives(g2, w));
    }
    if g_derives(g2, w) {
        assert forall|r: int, x: Seq<TokenModel>|
            0 <= r < g.rules.len() && #[trigger] g2.rules[r].contains(x) implies #[trigger] g
                .rules[r].contains(x) by {
            lemma_filter_subset(
                g.rules[r],
                |d: Seq<TokenModel>| d != seq![TokenModel::NT(r)],
                x,
            );
        }
        let k = choose|k: nat| #[trigger] tok_derives(g2.rules, TokenModel::NT(g2.start), w, k);
        lemma_tok_derives_sub_defs(g.rules, g2.rules, TokenModel::NT(g.start), w, k);
        assert(tok_derives(g.rules, TokenModel::NT(g.start), w, k));
        assert(g_derives(g, w));
    }
}

impl Grammar {
    /// One idempotent cleanup pass: canonicalize terminals, drop empty
    /// terminals, sort and deduplicate each rule's alternatives, drop
    /// direct self-loops, clear rules that can produce nothing, and drop
    /// rules unreachable from the start.
    ///
    /// Rule references stay valid, no empty terminal survives, and a
    /// grammar already in Chomsky-compatible shape keeps that shape.
    pub fn simplify(&mut self)
        requires
            old(self)@.wf(),
        ensures
            final(self)@.wf(),
            terminals_nonempty(final(self)@.rules),
            cnf_shaped(old(self)@.rules, old(self)@.start) && terminals_nonempty(old(self)@.rules)
                ==> cnf_shaped(final(self)@.rules, final(self)@.start),
            simplified(final(self)@),
            simplified(old(self)@) ==> final(self)@.rules == old(self)@.rules && final(self)@.start
                == old(self)@.start,
    {
        let ghost g0 = self@;
        self.concatenate_strings();
        let ghost g1 = self@;
        self.remove_empty_strings();
        let ghost g2 = self@;
        proof {
            lemma_stage_canon(g0, g1, g2);
            lemma_stage_canon_same(g0, g1, g2);
        }
        self.dedup();
        let ghost g3 = self@;
        proof {
            lemma_stage_dedup(g0, g2, g3);
        }
        self.remove_cycles();
        let ghost g4 = self@;
        proof {
            lemma_stage_cycles(g0, g3, g4);
        }
        self.flatten_impossible();
        let ghost g5 = self@;
        proof {
            lemma_stage_flatten(g0, g4, g5);
        }
        self.remove_unreachable();
        let ghost g6 = self@;
        proof {
            assert(unreach_rel(g5, g6));
            lemma_stage_unreach(g5, g6);
            if simplified(g0) {
                assert(forall|r: int|
                    0 <= r < g5.rules.len() ==> #[trigger] reachable(g5.rules, g5.start, r));
            }
        }
    }
}

impl Grammar {
    /// Within each definition, merges runs of consecutive terminals into
    /// one terminal by string concatenation, leaving an empty terminal
    /// before every rule reference and at the end.
    pub(crate) fn concatenate_strings(&mut self)
        ensures
            final(self)@.start == old(self)@.start,
            final(self)@.rules.len() == old(self)@.rules.len(),
            forall|r: int| 0 <= r < old(self)@.rules.len() ==> {
                &&& (#[trigger] final(self)@.rules[r]).len() == old(self)@.rules[r].len()
                &&& forall|d: int| 0 <= d < old(self)@.rules[r].len()
                    ==> final(self)@.rules[r][d] == conc_def(#[trigger] old(self)@.rules[r][d])
            },
    {
        let mut new_rules: Vec<Rule> = Vec::new();
        let mut r: usize = 0;
        while r < self.rules.len()
            invariant
                r <= self.rules.len(),
                self.rules@.len() == old(self).rules@.len(),
                self.start == old(self).start,
                forall|k: int| 0 <= k < self.rules@.len() ==> rule_view(#[trigger] self.rules@[k])
                    == old(self)@.rules[k],
                new_rules@.len() == r as int,
                forall|k: int| 0 <= k < r ==> {
                    &&& rule_view(#[trigger] new_rules@[k]).len() == old(self)@.rules[k].len()
                    &&& forall|d: int| 0 <= d < old(self)@.rules[k].len()
                        ==> rule_view(new_rules@[k])[d] == conc_def(
                            #[trigger] old(self)@.rules[k][d],
                        )
                },
            decreases self.rules.len() - r,
        {
            let rule = &self.rules[r];
            let mut new_rule: Rule = Vec::new();
            let mut d: usize = 0;
            while d < rule.len()
                invariant
                    d <= rule.len(),
                    new_rule@.len() == d as int,
                    forall|k: int| 0 <= k < d ==> def_view(#[trigger] new_rule@[k]) == conc_def(
                        def_view(rule@[k]),
                    ),
                decreases rule.len() - d,
            {
                new_rule.push(conc_one(&rule[d]));
                d += 1;
            }
            new_rules.push(new_rule);
            r += 1;
        }
        self.rules = new_rules;
    }

    /// Sorts each rule's alternatives under the definition order and
    /// removes duplicate alternatives.
    pub(crate) fn dedup(&mut self)
        ensures
            final(self)@.start == old(self)@.start,
            final(self)@.rules.len() == old(self)@.rules.len(),
            forall|r: int| 0 <= r < old(self)@.rules.len() ==> {
                &&& strictly_sorted_rule(#[trigger] final(self)@.rules[r])
                &&& forall|x: Seq<TokenModel>| #[trigger] final(self)@.rules[r].contains(x)
                    <==> old(self)@.rules[r].contains(x)
            },
            forall|w: Seq<char>| #[trigger] g_derives(final(self)@, w) == g_derives(
                old(self)@,
                w,
            ),
    {
        let mut new_rules: Vec<Rule> = Vec::new();
        let mut r: usize = 0;
        while r < self.rules.len()
            invariant
                r <= self.rules.len(),
                self.rules@.len() == old(self).rules@.len(),
                self.start == old(self).start,
                forall|k: int| 0 <= k < self.rules@.len() ==> rule_view(#[trigger] self.rules@[k])
                    == old(self)@.rules[k],
                new_rules@.len() == r as int,
                forall|k: int| 0 <= k < r ==> {
                    &&& strictly_sorted_rule(rule_view(#[trigger] new_rules@[k]))
                    &&& forall|x: Seq<TokenModel>| #[trigger] rule_view(new_rules@[k]).contains(x)
                        <==> old(self)@.rules[k].contains(x)
                },
            decreases self.rules.len() - r,
        {
            let out = dedup_rule(&self.rules[r]);
            new_rules.push(out);
            r += 1;
        }
        self.rules = new_rules;
        proof {
            assert forall|w: Seq<char>|
                #[trigger] g_derives(self@, w) == g_derives(old(self)@, w) by {
                assert forall|rr: int, x: Seq<TokenModel>|
                    0 <= rr < old(self)@.rules.len() implies ((#[trigger] old(
                    self,
                )@.rules[rr].contains(x)) <==> (#[trigger] self@.rules[rr].contains(x))) by {
                    assert(self@.rules[rr] == rule_view(self.rules@[rr]));
                    assert(rule_view(self.rules@[rr]).contains(x) <==> old(
                        self,
                    )@.rules[rr].contains(x));
                }
                lemma_same_defs_language(old(self)@, self@, w);
            }
        }
    }

    /// Removes every alternative that is a single reference to its own
    /// rule: such a direct self-loop can never terminate.
    pub(crate) fn remove_cycles(&mut self)
        ensures
            final(self)@.start == old(self)@.start,
            final(self)@.rules.len() == old(self)@.rules.len(),
            forall|r: int| 0 <= r < old(self)@.rules.len()
                ==> #[trigger] final(self)@.rules[r] == old(self)@.rules[r].filter(
                    |d: Seq<TokenModel>| d != seq![TokenModel::NT(r)],
                ),
            forall|w: Seq<char>| #[trigger] g_derives(final(self)@, w) == g_derives(
                old(self)@,
                w,
            ),
    {
        let mut new_rules: Vec<Rule> = Vec::new();
        let mut r: usize = 0;
        while r < self.rules.len()
            invariant
                r <= self.rules.len(),
                self.rules@.len() == old(self).rules@.len(),
                self.start == old(self).start,
                forall|k: int| 0 <= k < self.rules@.len() ==> rule_view(#[trigger] self.rules@[k])
                    == old(self)@.rules[k],
                new_rules@.len() == r as int,
                forall|k: int| 0 <= k < r ==> rule_view(#[trigger] new_rules@[k])
                    == old(self)@.rules[k].filter(|d: Seq<TokenModel>| d != seq![TokenModel::NT(k)]),
            decreases self.rules.len() - r,
        {
            let ghost p = (|d: Seq<TokenModel>| d != seq![TokenModel::NT(r as int)]);
            let rule = &self.rules[r];
            let ghost rv = rule_view(*rule);
            let mut new_rule: Rule = Vec::new();
            let mut d: usize = 0;
            proof {
                reveal(Seq::filter);
                assert(rv.take(0) =~= Seq::<Seq<TokenModel>>::empty());
                assert(rule_view(new_rule) =~= rv.take(0).filter(p));
            }
            while d < rule.len()
                invariant
                    d <= rule.len(),
                    rv == rule_view(*rule),
                    rv.len() == rule@.len(),
                    rule_view(new_rule) == rv.take(d as int).filter(p),
                    p == (|x: Seq<TokenModel>| x != seq![TokenModel::NT(r as int)]),
                decreases rule.len() - d,
            {
                proof {
                    reveal(Seq::filter);
                    assert(rv.take(d + 1).drop_last() =~= rv.take(d as int));
                    assert(rv.take(d + 1).last() == rv[d as int]);
                }
                let def = &rule[d];
                let is_self_loop = if def.len() == 1 {
                    match &def[0] {
                        Token::NT(nt) => *nt == r,
                        Token::T(_) => false,
                    }
                } else {
                    false
                };
                proof {
                    if is_self_loop {
                        assert(def_view(rule@[d as int]) =~= seq![TokenModel::NT(r as int)]);
                    } else {
                        if def_view(rule@[d as int]) == seq![TokenModel::NT(r as int)] {
                            assert(def_view(rule@[d as int]).len() == 1);
                            assert(def_view(rule@[d as int])[0] == TokenModel::NT(r as int));
                            assert(false);
                        }
                    }
                }
                if !is_self_loop {
                    let ghost out0 = rule_view(new_rule);
                    new_rule.push(copy_def(def));
                    proof {
                        assert(rule_view(new_rule) =~= out0.push(rv[d as int]));
                    }
                }
                d += 1;
            }
            proof {
                assert(rv.take(rv.len() as int) =~= rv);
            }
            new_rules.push(new_rule);
            r += 1;
        }
        self.rules = new_rules;
        proof {
            assert forall|w: Seq<char>|
                #[trigger] g_derives(self@, w) == g_derives(old(self)@, w) by {
                assert forall|rr: int|
                    0 <= rr < old(self)@.rules.len() implies #[trigger] self@.rules[rr] == old(
                    self,
                )@.rules[rr].filter(|d: Seq<TokenModel>| d != seq![TokenModel::NT(rr)]) by {
                    assert(self@.rules[rr] == rule_view(self.rules@[rr]));
                }
                lemma_cycles_language(old(self)@, self@, w);
            }
        }
    }

    /// Removes the empty terminal tokens of every definition.
    pub(crate) fn remove_empty_strings(&mut self)
        ensures
            final(self)@.start == old(self)@.start,
            final(self)@.rules.len() == old(self)@.rules.len(),
            forall|r: int| 0 <= r < old(self)@.rules.len() ==> {
                &&& (#[trigger] final(self)@.rules[r]).len() == old(self)@.rules[r].len()
                &&& forall|d: int| 0 <= d < old(self)@.rules[r].len()
                    ==> final(self)@.rules[r][d] == strip_def(#[trigger] old(self)@.rules[r][d])
            },
    {
        let mut new_rules: Vec<Rule> = Vec::new();
        let mut r: usize = 0;
        while r < self.rules.len()
            invariant
                r <= self.rules.len(),
                self.rules@.len() == old(self).rules@.len(),
                self.start == old(self).start,
                forall|k: int| 0 <= k < self.rules@.len() ==> rule_view(#[trigger] self.rules@[k])
                    == old(self)@.rules[k],
                new_rules@.len() == r as int,
                forall|k: int| 0 <= k < r ==> {
                    &&& rule_view(#[trigger] new_rules@[k]).len() == old(self)@.rules[k].len()
                    &&& forall|d: int| 0 <= d < old(self)@.rules[k].len()
                        ==> rule_view(new_rules@[k])[d] == strip_def(
                            #[trigger] old(self)@.rules[k][d],
                        )
                },
            decreases self.rules.len() - r,
        {
            let rule = &self.rules[r];
            let mut new_rule: Rule = Vec::new();
            let mut d: usize = 0;
            while d < rule.len()
                invariant
                    d <= rule.len(),
                    new_rule@.len() == d as int,
                    forall|k: int| 0 <= k < d ==> def_view(#[trigger] new_rule@[k]) == strip_def(
                        def_view(rule@[k]),
                    ),
                decreases rule.len() - d,
            {
                new_rule.push(strip_one(&rule[d]));
                d += 1;
            }
            new_rules.push(new_rule);
            r += 1;
        }
        self.rules = new_rules;
    }
}

} // verus!
