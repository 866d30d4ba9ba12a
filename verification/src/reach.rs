//! The two global simplification passes: clearing rules that can never
//! produce a word, and dropping rules unreachable from the start symbol.

use vstd::prelude::*;
use crate::grammar::{Grammar, GrammarModel, Token, TokenModel, Definition, Rule, def_view,
    rule_view, rules_view, wf_rules, copy_rule, tok_derives, def_derives, g_derives};

verus! {

/// How many entries of a mark table are set.
pub open spec fn count_marked(s: Seq<bool>) -> int
    decreases s.len(),
{
    if s.len() == 0 {
        0
    } else {
        count_marked(s.drop_last()) + if s.last() {
            1int
        } else {
            0int
        }
    }
}

pub proof fn lemma_count_marked_le(s: Seq<bool>)
    ensures
        0 <= count_marked(s) <= s.len(),
    decreases s.len(),
{
    if s.len() > 0 {
        lemma_count_marked_le(s.drop_last());
    }
}

pub proof fn lemma_count_marked_update(s: Seq<bool>, i: int)
    requires
        0 <= i < s.len(),
        !s[i],
    ensures
        count_marked(s.update(i, true)) == count_marked(s) + 1,
    decreases s.len(),
{
    if i == s.len() - 1 {
        assert(s.update(i, true).drop_last() =~= s.drop_last());
    } else {
        assert(s.update(i, true).drop_last() =~= s.drop_last().update(i, true));
        lemma_count_marked_update(s.drop_last(), i);
    }
}

/// The set of marked indices of a mark table.
pub open spec fn marked_set(s: Seq<bool>) -> Set<int> {
    Set::new(|i: int| 0 <= i < s.len() && s[i])
}

/// A rule reference can produce a word within derivation depth `k`,
/// through a derivation whose path reuses no reference in `avoid`.
pub open spec fn possible_avoid(
    rules: Seq<Seq<Seq<TokenModel>>>,
    avoid: Set<int>,
    nt: int,
    k: nat,
) -> bool
    decreases k, 1int,
{
    &&& !avoid.contains(nt)
    &&& 0 <= nt < rules.len()
    &&& exists|d: int|
        0 <= d < rules[nt].len() && def_possible(rules, avoid.insert(nt), #[trigger] rules[nt][d], k)
}

/// All rule references of a definition can produce words within depth `k`.
pub open spec fn def_possible(
    rules: Seq<Seq<Seq<TokenModel>>>,
    avoid: Set<int>,
    d: Seq<TokenModel>,
    k: nat,
) -> bool
    decreases k, 0int,
{
    forall|t: int|
        0 <= t < d.len() && d[t] is NT ==> k > 0 && possible_avoid(
            rules,
            avoid,
            (#[trigger] d[t])->NT_0,
            (k - 1) as nat,
        )
}

/// A rule can produce some word: some alternative's tokens are all
/// terminals or themselves possible rules.
pub open spec fn possible(rules: Seq<Seq<Seq<TokenModel>>>, nt: int) -> bool {
    exists|k: nat| possible_avoid(rules, Set::<int>::empty(), nt, k)
}

/// Possibility at a depth bound stays possible at any larger bound.
pub proof fn lemma_possible_avoid_mono(
    rules: Seq<Seq<Seq<TokenModel>>>,
    avoid: Set<int>,
    nt: int,
    k1: nat,
    k2: nat,
)
    requires
        possible_avoid(rules, avoid, nt, k1),
        k1 <= k2,
    ensures
        possible_avoid(rules, avoid, nt, k2),
    decreases k1,
{
    let d = choose|d: int|
        0 <= d < rules[nt].len() && def_possible(rules, avoid.insert(nt), #[trigger] rules[nt][d], k1);
    let def = rules[nt][d];
    assert forall|t: int| 0 <= t < def.len() && def[t] is NT implies k2 > 0 && possible_avoid(
        rules,
        avoid.insert(nt),
        (#[trigger] def[t])->NT_0,
        (k2 - 1) as nat,
    ) by {
        assert(k1 > 0 && possible_avoid(rules, avoid.insert(nt), def[t]->NT_0, (k1 - 1) as nat));
        lemma_possible_avoid_mono(rules, avoid.insert(nt), def[t]->NT_0, (k1 - 1) as nat, (k2
            - 1) as nat);
    }
    assert(def_possible(rules, avoid.insert(nt), rules[nt][d], k2));
}

/// Decides whether the rule `nt` can produce a word through a derivation
/// that avoids the references marked in `visited`; the mark table comes
/// back unchanged.
fn is_possible(rules: &Vec<Rule>, visited: Vec<bool>, nt: usize) -> (res: (bool, Vec<bool>))
    requires
        visited@.len() == rules@.len(),
        nt < rules@.len(),
        wf_rules(rules_view(rules@)),
    ensures
        res.1@ == visited@,
        res.0 == exists|k: nat|
            possible_avoid(rules_view(rules@), marked_set(visited@), nt as int, k),
    decreases visited@.len() - count_marked(visited@),
{
    let ghost rv = rules_view(rules@);
    let ghost v0 = visited@;
    let ghost avoid = marked_set(v0);
    let mut vis = visited;
    proof {
        lemma_count_marked_le(v0);
    }
    if vis[nt] {
        proof {
            assert(avoid.contains(nt as int));
        }
        return (false, vis);
    }
    vis.set(nt, true);
    let ghost avoid1 = avoid.insert(nt as int);
    proof {
        lemma_count_marked_update(v0, nt as int);
        assert(marked_set(vis@) =~= avoid1);
        assert(rv[nt as int] == rule_view(rules@[nt as int]));
    }
    let rule = &rules[nt];
    let mut d: usize = 0;
    while d < rule.len()
        invariant
            d <= rule.len(),
            rule == &rules@[nt as int],
            rv == rules_view(rules@),
            rv.len() == rules@.len(),
            rv[nt as int] == rule_view(*rule),
            rule_view(*rule).len() == rule@.len(),
            nt < rules@.len(),
            wf_rules(rv),
            vis@ == v0.update(nt as int, true),
            v0.len() == rules@.len(),
            vis@.len() == rules@.len(),
            marked_set(vis@) == avoid1,
            avoid1 == avoid.insert(nt as int),
            avoid == marked_set(v0),
            v0 == visited@,
            !v0[nt as int],
            count_marked(vis@) == count_marked(v0) + 1,
            forall|dd: int, k: nat| 0 <= dd < d ==> !(#[trigger] def_possible(rv, avoid1, rv[nt as int][dd], k)),
        decreases rule.len() - d,
    {
        let def = &rule[d];
        let ghost defv = rv[nt as int][d as int];
        proof {
            assert(defv == def_view(rule@[d as int]));
        }
        let mut t: usize = 0;
        let mut ok = true;
        let ghost big: nat = 0;
        while t < def.len() && ok
            invariant
                t <= def.len(),
                def == &rule@[d as int],
                defv == def_view(*def),
                defv.len() == def@.len(),
                rule == &rules@[nt as int],
                rv == rules_view(rules@),
                rv.len() == rules@.len(),
                rv[nt as int] == rule_view(*rule),
                rule_view(*rule).len() == rule@.len(),
                0 <= (d as int) < rule@.len(),
                nt < rules@.len(),
                wf_rules(rv),
                vis@ == v0.update(nt as int, true),
                v0.len() == rules@.len(),
                vis@.len() == rules@.len(),
                marked_set(vis@) == avoid1,
                avoid1 == avoid.insert(nt as int),
                avoid == marked_set(v0),
                v0 == visited@,
                !v0[nt as int],
                count_marked(vis@) == count_marked(v0) + 1,
                ok ==> forall|tt: int|
                    0 <= tt < t && defv[tt] is NT ==> possible_avoid(
                        rv,
                        avoid1,
                        (#[trigger] defv[tt])->NT_0,
                        big,
                    ),
                !ok ==> exists|tt: int|
                    0 <= tt < defv.len() && defv[tt] is NT && (forall|k: nat|
                        !possible_avoid(rv, avoid1, (#[trigger] defv[tt])->NT_0, k)),
            decreases def.len() - t,
        {
            match &def[t] {
                Token::T(_) => {
                    proof {
                        assert(defv[t as int] is T);
                    }
                },
                Token::NT(m) => {
                    proof {
                        assert(defv[t as int] == TokenModel::NT(*m as int));
                        assert(rv[nt as int][d as int][t as int] is NT);
                        assert((*m as int) < rv.len());
                        lemma_count_marked_le(vis@);
                    }
                    let ghost vmid = vis@;
                    let (sub, vis2) = is_possible(rules, vis, *m);
                    vis = vis2;
                    proof {
                        assert(vis@ == vmid);
                    }
                    if sub {
                        proof {
                            let k = choose|k: nat| possible_avoid(rv, avoid1, *m as int, k);
                            let newbig: nat = if k > big {
                                k
                            } else {
                                big
                            };
                            assert forall|tt: int| 0 <= tt < t + 1 && defv[tt] is NT
                                implies possible_avoid(
                                rv,
                                avoid1,
                                (#[trigger] defv[tt])->NT_0,
                                newbig,
                            ) by {
                                if tt < t {
                                    lemma_possible_avoid_mono(rv, avoid1, defv[tt]->NT_0, big, newbig);
                                } else {
                                    lemma_possible_avoid_mono(rv, avoid1, *m as int, k, newbig);
                                }
                            }
                            big = newbig;
                        }
                    } else {
                        ok = false;
                        proof {
                            assert(defv[t as int] is NT && (forall|k: nat|
                                !possible_avoid(rv, avoid1, (defv[t as int])->NT_0, k)));
                        }
                    }
                },
            }
            t += 1;
        }
        if ok {
            vis.set(nt, false);
            proof {
                assert(vis@ =~= v0);
                assert(def_possible(rv, avoid1, defv, big + 1));
                assert(possible_avoid(rv, avoid, nt as int, big + 1));
            }
            return (true, vis);
        }
        proof {
            assert forall|k: nat| !def_possible(rv, avoid1, rv[nt as int][d as int], k) by {
                let tt = choose|tt: int|
                    0 <= tt < defv.len() && defv[tt] is NT && (forall|k2: nat|
                        !possible_avoid(rv, avoid1, (#[trigger] defv[tt])->NT_0, k2));
                if def_possible(rv, avoid1, defv, k) {
                    assert(k > 0 && possible_avoid(rv, avoid1, defv[tt]->NT_0, (k - 1) as nat));
                }
            }
        }
        d += 1;
    }
    vis.set(nt, false);
    proof {
        assert(vis@ =~= v0);
        assert forall|k: nat| !possible_avoid(rv, avoid, nt as int, k) by {
            if possible_avoid(rv, avoid, nt as int, k) {
                let dd = choose|dd: int|
                    0 <= dd < rv[nt as int].len() && def_possible(
                        rv,
                        avoid.insert(nt as int),
                        #[trigger] rv[nt as int][dd],
                        k,
                    );
                assert(!def_possible(rv, avoid1, rv[nt as int][dd], k));
            }
        }
    }
    (false, vis)
}

impl Grammar {
    /// Clears every rule that cannot produce any word: all its
    /// alternatives are emptied, leaving the rule undefined.
    pub(crate) fn flatten_impossible(&mut self)
        requires
            wf_rules(old(self)@.rules),
        ensures
            final(self)@.start == old(self)@.start,
            final(self)@.rules.len() == old(self)@.rules.len(),
            wf_rules(final(self)@.rules),
            forall|r: int| 0 <= r < old(self)@.rules.len()
                ==> #[trigger] final(self)@.rules[r] == if possible(old(self)@.rules, r) {
                    old(self)@.rules[r]
                } else {
                    Seq::<Seq<TokenModel>>::empty()
                },
    {
        let ghost rv = rules_view(self.rules@);
        let n = self.rules.len();
        let mut poss: Vec<bool> = Vec::new();
        let mut i: usize = 0;
        while i < n
            invariant
                i <= n,
                n == self.rules@.len(),
                *self == *old(self),
                rv == rules_view(self.rules@),
                wf_rules(rv),
                poss@.len() == i as int,
                forall|k: int| 0 <= k < i ==> poss@[k] == possible(rv, k),
            decreases n - i,
        {
            let mut visited: Vec<bool> = Vec::new();
            let mut j: usize = 0;
            while j < n
                invariant
                    j <= n,
                    visited@.len() == j as int,
                    forall|k: int| 0 <= k < j ==> !visited@[k],
                decreases n - j,
            {
                visited.push(false);
                j += 1;
            }
            proof {
                assert(marked_set(visited@) =~= Set::<int>::empty());
            }
            let (r, _vis) = is_possible(&self.rules, visited, i);
            poss.push(r);
            i += 1;
        }
        let mut new_rules: Vec<Rule> = Vec::new();
        let mut r: usize = 0;
        while r < n
            invariant
                r <= n,
                n == self.rules@.len(),
                *self == *old(self),
                rv == rules_view(self.rules@),
                poss@.len() == n as int,
                forall|k: int| 0 <= k < n ==> poss@[k] == possible(rv, k),
                new_rules@.len() == r as int,
                forall|k: int| 0 <= k < r ==> rule_view(#[trigger] new_rules@[k]) == if possible(
                    rv,
                    k,
                ) {
                    rv[k]
                } else {
                    Seq::<Seq<TokenModel>>::empty()
                },
            decreases n - r,
        {
            if poss[r] {
                let kept = copy_rule(&self.rules[r]);
                proof {
                    assert(rule_view(self.rules@[r as int]) == rv[r as int]);
                }
                new_rules.push(kept);
            } else {
                let empty_rule: Rule = Vec::new();
                proof {
                    assert(rule_view(empty_rule) =~= Seq::<Seq<TokenModel>>::empty());
                }
                new_rules.push(empty_rule);
            }
            r += 1;
        }
        self.rules = new_rules;
        proof {
            assert forall|a: int, b: int, c: int|
                0 <= a < rules_view(self.rules@).len() && 0 <= b < rules_view(self.rules@)[a].len()
                    && 0 <= c < rules_view(self.rules@)[a][b].len() && rules_view(
                    self.rules@,
                )[a][b][c] is NT implies 0 <= (#[trigger] rules_view(self.rules@)[a][b][c])->NT_0
                < rules_view(self.rules@).len() by {
                assert(rules_view(self.rules@)[a] == if possible(rv, a) {
                    rv[a]
                } else {
                    Seq::<Seq<TokenModel>>::empty()
                });
            }
        }
    }
}

} // verus!

verus! {

/// Some definition of rule `m` references rule `nt`.
pub open spec fn references(rules: Seq<Seq<Seq<TokenModel>>>, m: int, nt: int) -> bool {
    exists|d: int, t: int|
        0 <= d < rules[m].len() && 0 <= t < rules[m][d].len() && rules[m][d][t] == TokenModel::NT(
            nt,
        )
}

/// Rule `nt` is reachable from `start` through at most `k` references.
pub open spec fn reach_k(rules: Seq<Seq<Seq<TokenModel>>>, start: int, nt: int, k: nat) -> bool
    decreases k,
{
    if k == 0 {
        nt == start
    } else {
        reach_k(rules, start, nt, (k - 1) as nat) || exists|m: int|
            0 <= m < rules.len() && reach_k(rules, start, m, (k - 1) as nat) && references(
                rules,
                m,
                nt,
            )
    }
}

/// Rule `nt` is transitively referenced from `start`.
pub open spec fn reachable(rules: Seq<Seq<Seq<TokenModel>>>, start: int, nt: int) -> bool {
    exists|k: nat| reach_k(rules, start, nt, k)
}

/// How many of the first `i` rules are reachable: the new index of rule
/// `i` after unreachable rules are dropped and the rest compacted.
pub open spec fn reach_upto(rules: Seq<Seq<Seq<TokenModel>>>, start: int, i: int) -> int
    decreases i,
{
    if i <= 0 {
        0
    } else {
        reach_upto(rules, start, i - 1) + if reachable(rules, start, i - 1) {
            1int
        } else {
            0int
        }
    }
}

pub proof fn lemma_reach_upto_mono(rules: Seq<Seq<Seq<TokenModel>>>, start: int, i: int, j: int)
    requires
        i <= j,
    ensures
        reach_upto(rules, start, i) <= reach_upto(rules, start, j),
    decreases j - i,
{
    if i < j {
        lemma_reach_upto_mono(rules, start, i, j - 1);
    }
}

pub proof fn lemma_reach_upto_le(rules: Seq<Seq<Seq<TokenModel>>>, start: int, i: int)
    ensures
        0 <= reach_upto(rules, start, i) <= if i <= 0 {
            0int
        } else {
            i
        },
    decreases i,
{
    if i > 0 {
        lemma_reach_upto_le(rules, start, i - 1);
    }
}

/// A reachable rule's new index lies below the count of reachable rules.
pub proof fn lemma_reach_upto_lt(rules: Seq<Seq<Seq<TokenModel>>>, start: int, m: int, n: int)
    requires
        0 <= m < n,
        reachable(rules, start, m),
    ensures
        reach_upto(rules, start, m) < reach_upto(rules, start, n),
{
    lemma_reach_upto_mono(rules, start, m + 1, n);
}

/// Every compacted index below the total count comes from some
/// reachable rule.
pub proof fn lemma_reach_upto_surj(rules: Seq<Seq<Seq<TokenModel>>>, start: int, n: int, a: int)
    requires
        0 <= a < reach_upto(rules, start, n),
    ensures
        exists|i: int|
            0 <= i < n && reachable(rules, start, i) && reach_upto(rules, start, i) == a,
    decreases n,
{
    if n > 0 {
        if reachable(rules, start, n - 1) && reach_upto(rules, start, n - 1) == a {
            assert(0 <= n - 1 < n && reachable(rules, start, n - 1) && reach_upto(
                rules,
                start,
                n - 1,
            ) == a);
        } else {
            lemma_reach_upto_surj(rules, start, n - 1, a);
        }
    }
}

/// A mark table that is closed under references and marks the start
/// covers every reachable rule.
pub proof fn lemma_closed_marks_cover(
    rules: Seq<Seq<Seq<TokenModel>>>,
    start: int,
    marks: Seq<bool>,
    nt: int,
    k: nat,
)
    requires
        marks.len() == rules.len(),
        0 <= start < rules.len(),
        marks[start],
        forall|m: int, x: int|
            0 <= m < rules.len() && marks[m] && 0 <= x < rules.len() && references(rules, m, x)
                ==> marks[x],
        reach_k(rules, start, nt, k),
        0 <= nt < rules.len(),
    ensures
        marks[nt],
    decreases k,
{
    if k > 0 {
        if reach_k(rules, start, nt, (k - 1) as nat) {
            lemma_closed_marks_cover(rules, start, marks, nt, (k - 1) as nat);
        } else {
            let m = choose|m: int|
                0 <= m < rules.len() && reach_k(rules, start, m, (k - 1) as nat) && references(
                    rules,
                    m,
                    nt,
                );
            lemma_closed_marks_cover(rules, start, marks, m, (k - 1) as nat);
        }
    }
}

/// Remaps every rule reference of a definition to its compacted index.
pub open spec fn remap_tok(rules: Seq<Seq<Seq<TokenModel>>>, start: int, t: TokenModel) -> TokenModel {
    match t {
        TokenModel::NT(m) => TokenModel::NT(reach_upto(rules, start, m)),
        TokenModel::T(s) => TokenModel::T(s),
    }
}

/// A definition with every rule reference remapped to compacted indices.
pub open spec fn remap_def(rules: Seq<Seq<Seq<TokenModel>>>, start: int, d: Seq<TokenModel>) -> Seq<
    TokenModel,
> {
    d.map_values(|t: TokenModel| remap_tok(rules, start, t))
}

/// A rule with every definition remapped to compacted indices.
pub open spec fn remap_rule(
    rules: Seq<Seq<Seq<TokenModel>>>,
    start: int,
    r: Seq<Seq<TokenModel>>,
) -> Seq<Seq<TokenModel>> {
    r.map_values(|d: Seq<TokenModel>| remap_def(rules, start, d))
}

impl Grammar {
    /// Drops every rule not reachable from the start rule, compacts the
    /// remaining rules to a dense index range, and remaps every rule
    /// reference and the start to the new indices.
    pub(crate) fn remove_unreachable(&mut self)
        requires
            old(self)@.wf(),
        ensures
            final(self)@.wf(),
            final(self)@.rules.len() == reach_upto(
                old(self)@.rules,
                old(self)@.start,
                old(self)@.rules.len() as int,
            ),
            final(self)@.start == reach_upto(old(self)@.rules, old(self)@.start, old(self)@.start),
            forall|i: int|
                0 <= i < old(self)@.rules.len() && reachable(old(self)@.rules, old(self)@.start, i)
                    ==> #[trigger] final(self)@.rules[reach_upto(
                    old(self)@.rules,
                    old(self)@.start,
                    i,
                )] == remap_rule(old(self)@.rules, old(self)@.start, old(self)@.rules[i]),
            forall|w: Seq<char>| #[trigger] g_derives(final(self)@, w) == g_derives(
                old(self)@,
                w,
            ),
    {
        let ghost rv = rules_view(self.rules@);
        let ghost startg = self.start as int;
        let n = self.rules.len();
        // mark every rule reachable from the start by a depth-first search
        let mut reached: Vec<bool> = Vec::new();
        let mut j: usize = 0;
        while j < n
            invariant
                j <= n,
                reached@.len() == j as int,
                forall|x: int| 0 <= x < j ==> !reached@[x],
            decreases n - j,
        {
            reached.push(false);
            j += 1;
        }
        reached.set(self.start, true);
        let mut q: Vec<usize> = Vec::new();
        q.push(self.start);
        proof {
            assert(reach_k(rv, startg, startg, 0));
            lemma_count_marked_le(reached@);
            assert(q@[0] == self.start);
            assert(q@.contains(self.start));
            assert forall|m: int| 0 <= m < n && #[trigger] reached@[m] implies m == startg by {}
        }
        while q.len() > 0
            invariant
                n == self.rules@.len(),
                *self == *old(self),
                rv == rules_view(self.rules@),
                rv.len() == n as int,
                startg == self.start as int,
                0 <= startg < n as int,
                old(self)@.wf(),
                reached@.len() == n as int,
                reached@[startg],
                forall|x: int| 0 <= x < q@.len() ==> (#[trigger] q@[x] as int) < n as int
                    && reached@[q@[x] as int],
                forall|x: int| 0 <= x < n && #[trigger] reached@[x] ==> reachable(rv, startg, x),
                forall|m: int, x: int|
                    0 <= m < n && reached@[m] && !q@.contains(m as usize) && 0 <= x < n
                        && references(rv, m, x) ==> reached@[x],
            decreases (n as int) - count_marked(reached@), q@.len(),
        {
            let ghost q0 = q@;
            let ghost marks0 = reached@;
            let cur = q.pop().unwrap();
            let ghost curg = cur as int;
            proof {
                assert(q@ =~= q0.subrange(0, q0.len() - 1));
                assert forall|m: int|
                    0 <= m < n && #[trigger] q0.contains(m as usize) && m != curg
                    implies q@.contains(m as usize) by {
                    let x = choose|x: int| 0 <= x < q0.len() && q0[x] == m as usize;
                    if x < q0.len() - 1 {
                        assert(q@[x] == m as usize);
                    } else {
                        assert(m as usize == cur);
                        assert(m == curg);
                    }
                }
            }
            let rule = &self.rules[cur];
            let mut d: usize = 0;
            while d < rule.len()
                invariant
                    n == self.rules@.len(),
                    *self == *old(self),
                    rv == rules_view(self.rules@),
                    rv.len() == n as int,
                    startg == self.start as int,
                    0 <= startg < n as int,
                    old(self)@.wf(),
                    cur < n,
                    curg == cur as int,
                    rule == &self.rules@[curg],
                    rv[curg] == rule_view(*rule),
                    rule_view(*rule).len() == rule@.len(),
                    d <= rule.len(),
                    reached@.len() == n as int,
                    reached@[startg],
                    reached@[curg],
                    count_marked(reached@) >= count_marked(marks0),
                    q@.len() < q0.len() || count_marked(reached@) > count_marked(marks0),
                    forall|x: int| 0 <= x < q@.len() ==> (#[trigger] q@[x] as int) < n as int
                        && reached@[q@[x] as int],
                    forall|x: int| 0 <= x < n && #[trigger] reached@[x] ==> reachable(rv, startg, x),
                    forall|m: int, x: int|
                        0 <= m < n && reached@[m] && m != curg && !q@.contains(m as usize) && 0 <= x
                            < n && references(rv, m, x) ==> reached@[x],
                    forall|dd: int, t: int|
                        0 <= dd < d && 0 <= t < rv[curg][dd].len() && (#[trigger] rv[curg][dd][t]) is NT
                            ==> reached@[rv[curg][dd][t]->NT_0],
                decreases rule.len() - d,
            {
                let def = &rule[d];
                let mut t: usize = 0;
                while t < def.len()
                    invariant
                        n == self.rules@.len(),
                        *self == *old(self),
                        rv == rules_view(self.rules@),
                        rv.len() == n as int,
                        startg == self.start as int,
                        0 <= startg < n as int,
                        old(self)@.wf(),
                        cur < n,
                        curg == cur as int,
                        rule == &self.rules@[curg],
                        rv[curg] == rule_view(*rule),
                        rule_view(*rule).len() == rule@.len(),
                        0 <= (d as int) < rule@.len(),
                        def == &rule@[d as int],
                        rv[curg][d as int] == def_view(*def),
                        def_view(*def).len() == def@.len(),
                        t <= def.len(),
                        reached@.len() == n as int,
                        reached@[startg],
                        reached@[curg],
                        count_marked(reached@) >= count_marked(marks0),
                        q@.len() < q0.len() || count_marked(reached@) > count_marked(marks0),
                        forall|x: int| 0 <= x < q@.len() ==> (#[trigger] q@[x] as int) < n as int
                            && reached@[q@[x] as int],
                        forall|x: int| 0 <= x < n && #[trigger] reached@[x] ==> reachable(
                            rv,
                            startg,
                            x,
                        ),
                        forall|m: int, x: int|
                            0 <= m < n && reached@[m] && m != curg && !q@.contains(m as usize) && 0
                                <= x < n && references(rv, m, x) ==> reached@[x],
                        forall|dd: int, tt: int|
                            0 <= dd < d && 0 <= tt < rv[curg][dd].len() && (#[trigger] rv[curg][dd][tt]) is NT
                                ==> reached@[rv[curg][dd][tt]->NT_0],
                        forall|tt: int|
                            0 <= tt < t && (#[trigger] rv[curg][d as int][tt]) is NT
                                ==> reached@[rv[curg][d as int][tt]->NT_0],
                    decreases def.len() - t,
                {
                    match &def[t] {
                        Token::T(_) => {
                            proof {
                                assert(rv[curg][d as int][t as int] is T);
                            }
                        },
                        Token::NT(m) => {
                            proof {
                                assert(rv[curg][d as int][t as int] == TokenModel::NT(*m as int));
                                assert((*m as int) < n as int);
                            }
                            if !reached[*m] {
                                proof {
                                    lemma_count_marked_update(reached@, *m as int);
                                    lemma_count_marked_le(reached@);
                                    assert(reachable(rv, startg, curg));
                                    let k = choose|k: nat| reach_k(rv, startg, curg, k);
                                    assert(references(rv, curg, *m as int));
                                    assert(reach_k(rv, startg, *m as int, k + 1));
                                }
                                let ghost qprev = q@;
                                reached.set(*m, true);
                                q.push(*m);
                                proof {
                                    assert(q@ =~= qprev.push(*m));
                                    assert forall|y: usize| #[trigger] qprev.contains(y)
                                        implies q@.contains(y) by {
                                        let x = choose|x: int|
                                            0 <= x < qprev.len() && qprev[x] == y;
                                        assert(q@[x] == y);
                                    }
                                    assert(q@[q@.len() - 1] == *m);
                                    assert(q@.contains(*m));
                                }
                            }
                        },
                    }
                    t += 1;
                }
                d += 1;
            }
            proof {
                lemma_count_marked_le(reached@);
                assert forall|m: int, x: int|
                    0 <= m < n && reached@[m] && !q@.contains(m as usize) && 0 <= x < n
                        && references(rv, m, x) implies reached@[x] by {
                    if m == curg {
                        let (dd, tt) = choose|dd: int, tt: int|
                            0 <= dd < rv[curg].len() && 0 <= tt < rv[curg][dd].len()
                                && rv[curg][dd][tt] == TokenModel::NT(x);
                    }
                }
            }
        }
        proof {
            assert forall|i: int| 0 <= i < n implies reached@[i] == reachable(rv, startg, i) by {
                if reachable(rv, startg, i) {
                    let k = choose|k: nat| reach_k(rv, startg, i, k);
                    lemma_closed_marks_cover(rv, startg, reached@, i, k);
                }
            }
        }
        // compute each rule's compacted index
        let mut offsets: Vec<usize> = Vec::new();
        let mut offset: usize = 0;
        let mut i: usize = 0;
        while i < n
            invariant
                i <= n,
                n == self.rules@.len(),
                *self == *old(self),
                rv == rules_view(self.rules@),
                startg == self.start as int,
                reached@.len() == n as int,
                forall|x: int| 0 <= x < n ==> #[trigger] reached@[x] == reachable(rv, startg, x),
                offsets@.len() == i as int,
                offset as int == reach_upto(rv, startg, i as int),
                forall|x: int| 0 <= x < i ==> (#[trigger] offsets@[x]) as int == reach_upto(
                    rv,
                    startg,
                    x,
                ),
            decreases n - i,
        {
            offsets.push(offset);
            if reached[i] {
                proof {
                    lemma_reach_upto_le(rv, startg, i as int);
                }
                offset = offset + 1;
            }
            i += 1;
        }
        // rebuild the table, keeping reachable rules with remapped references
        let ghost total = reach_upto(rv, startg, n as int);
        let mut new_rules: Vec<Rule> = Vec::new();
        let mut r: usize = 0;
        while r < n
            invariant
                r <= n,
                n == self.rules@.len(),
                *self == *old(self),
                rv == rules_view(self.rules@),
                rv.len() == n as int,
                startg == self.start as int,
                0 <= startg < n as int,
                old(self)@.wf(),
                total == reach_upto(rv, startg, n as int),
                reached@.len() == n as int,
                forall|x: int| 0 <= x < n ==> #[trigger] reached@[x] == reachable(rv, startg, x),
                offsets@.len() == n as int,
                forall|x: int| 0 <= x < n ==> (#[trigger] offsets@[x]) as int == reach_upto(
                    rv,
                    startg,
                    x,
                ),
                new_rules@.len() == reach_upto(rv, startg, r as int),
                forall|x: int|
                    0 <= x < r && reachable(rv, startg, x) ==> rule_view(
                        #[trigger] new_rules@[reach_upto(rv, startg, x)],
                    ) == remap_rule(rv, startg, rv[x]),
                forall|a: int, b: int, c: int|
                    0 <= a < new_rules@.len() && 0 <= b < rule_view(new_rules@[a]).len() && 0 <= c
                        < rule_view(new_rules@[a])[b].len() && (#[trigger] rule_view(
                        new_rules@[a],
                    )[b][c]) is NT ==> 0 <= rule_view(new_rules@[a])[b][c]->NT_0 < total,
            decreases n - r,
        {
            if reached[r] {
                let rule = &self.rules[r];
                let mut new_rule: Rule = Vec::new();
                let mut d: usize = 0;
                while d < rule.len()
                    invariant
                        n == self.rules@.len(),
                        *self == *old(self),
                        rv == rules_view(self.rules@),
                        rv.len() == n as int,
                        startg == self.start as int,
                        0 <= startg < n as int,
                        old(self)@.wf(),
                        total == reach_upto(rv, startg, n as int),
                        r < n,
                        reachable(rv, startg, r as int),
                        rule == &self.rules@[r as int],
                        rv[r as int] == rule_view(*rule),
                        rule_view(*rule).len() == rule@.len(),
                        d <= rule.len(),
                        reached@.len() == n as int,
                        forall|x: int| 0 <= x < n ==> #[trigger] reached@[x] == reachable(
                            rv,
                            startg,
                            x,
                        ),
                        offsets@.len() == n as int,
                        forall|x: int| 0 <= x < n ==> (#[trigger] offsets@[x]) as int == reach_upto(
                            rv,
                            startg,
                            x,
                        ),
                        new_rule@.len() == d as int,
                        forall|dd: int| 0 <= dd < d ==> def_view(#[trigger] new_rule@[dd])
                            == remap_def(rv, startg, rv[r as int][dd]),
                        forall|dd: int, c: int|
                            0 <= dd < d && 0 <= c < def_view(new_rule@[dd]).len() && (
                            #[trigger] def_view(new_rule@[dd])[c]) is NT ==> 0 <= def_view(
                                new_rule@[dd],
                            )[c]->NT_0 < total,
                    decreases rule.len() - d,
                {
                    let def = &rule[d];
                    let mut new_def: Definition = Vec::new();
                    let mut t: usize = 0;
                    while t < def.len()
                        invariant
                            n == self.rules@.len(),
                            *self == *old(self),
                            rv == rules_view(self.rules@),
                            rv.len() == n as int,
                            startg == self.start as int,
                            0 <= startg < n as int,
                            old(self)@.wf(),
                            total == reach_upto(rv, startg, n as int),
                            r < n,
                            reachable(rv, startg, r as int),
                            rule == &self.rules@[r as int],
                            rv[r as int] == rule_view(*rule),
                            rule_view(*rule).len() == rule@.len(),
                            0 <= (d as int) < rule@.len(),
                            def == &rule@[d as int],
                            rv[r as int][d as int] == def_view(*def),
                            def_view(*def).len() == def@.len(),
                            t <= def.len(),
                            reached@.len() == n as int,
                            forall|x: int| 0 <= x < n ==> #[trigger] reached@[x] == reachable(
                                rv,
                                startg,
                                x,
                            ),
                            offsets@.len() == n as int,
                            forall|x: int| 0 <= x < n ==> (#[trigger] offsets@[x]) as int
                                == reach_upto(rv, startg, x),
                            new_def@.len() == t as int,
                            forall|c: int| 0 <= c < t ==> (#[trigger] new_def@[c])@ == remap_tok(
                                rv,
                                startg,
                                rv[r as int][d as int][c],
                            ),
                            forall|c: int|
                                0 <= c < t && (#[trigger] new_def@[c])@ is NT
                                    ==> 0 <= new_def@[c]@->NT_0 < total,
                        decreases def.len() - t,
                    {
                        match &def[t] {
                            Token::T(s) => {
                                proof {
                                    assert(rv[r as int][d as int][t as int] == TokenModel::T(s@));
                                }
                                new_def.push(Token::T(s.clone()));
                            },
                            Token::NT(m) => {
                                proof {
                                    assert(rv[r as int][d as int][t as int] == TokenModel::NT(
                                        *m as int,
                                    ));
                                    assert((*m as int) < n as int);
                                    assert(reachable(rv, startg, r as int));
                                    let k = choose|k: nat| reach_k(rv, startg, r as int, k);
                                    assert(references(rv, r as int, *m as int));
                                    assert(reach_k(rv, startg, *m as int, k + 1));
                                    assert(reachable(rv, startg, *m as int));
                                    lemma_reach_upto_lt(rv, startg, *m as int, n as int);
                                }
                                new_def.push(Token::NT(offsets[*m]));
                            },
                        }
                        t += 1;
                    }
                    proof {
                        assert(def_view(new_def) =~= remap_def(rv, startg, rv[r as int][d as int]));
                    }
                    new_rule.push(new_def);
                    d += 1;
                }
                proof {
                    assert(rule_view(new_rule) =~= remap_rule(rv, startg, rv[r as int]));
                    assert(reach_upto(rv, startg, r + 1) == reach_upto(rv, startg, r as int) + 1);
                    lemma_reach_upto_le(rv, startg, r as int);
                }
                let ghost prev_rules = new_rules@;
                new_rules.push(new_rule);
                proof {
                    assert forall|x: int| 0 <= x < r + 1 && reachable(rv, startg, x)
                        implies rule_view(
                        #[trigger] new_rules@[reach_upto(rv, startg, x)],
                    ) == remap_rule(rv, startg, rv[x]) by {
                        lemma_reach_upto_le(rv, startg, x);
                        if x < r {
                            lemma_reach_upto_lt(rv, startg, x, r as int);
                            assert(new_rules@[reach_upto(rv, startg, x)] == prev_rules[reach_upto(
                                rv,
                                startg,
                                x,
                            )]);
                        } else {
                            assert(new_rules@[reach_upto(rv, startg, x)] == new_rule);
                        }
                    }
                }
            } else {
                proof {
                    assert(reach_upto(rv, startg, r + 1) == reach_upto(rv, startg, r as int));
                }
            }
            r += 1;
        }
        let new_start = offsets[self.start];
        self.rules = new_rules;
        self.start = new_start;
        proof {
            lemma_reach_upto_lt(rv, startg, startg, n as int);
            lemma_reach_upto_le(rv, startg, startg);
            assert forall|i: int|
                0 <= i < n && reachable(rv, startg, i) implies #[trigger] rules_view(
                self.rules@,
            )[reach_upto(rv, startg, i)] == remap_rule(rv, startg, rv[i]) by {
                lemma_reach_upto_le(rv, startg, i);
                lemma_reach_upto_lt(rv, startg, i, n as int);
                assert(rules_view(self.rules@)[reach_upto(rv, startg, i)] == rule_view(
                    self.rules@[reach_upto(rv, startg, i)],
                ));
            }
            assert forall|a: int, b: int, c: int|
                0 <= a < rules_view(self.rules@).len() && 0 <= b < rules_view(self.rules@)[a].len()
                    && 0 <= c < rules_view(self.rules@)[a][b].len() && rules_view(
                    self.rules@,
                )[a][b][c] is NT implies 0 <= (#[trigger] rules_view(self.rules@)[a][b][c])->NT_0
                < rules_view(self.rules@).len() by {
                assert(rules_view(self.rules@)[a] == rule_view(self.rules@[a]));
            }
            assert(compacted(rv, startg, rules_view(self.rules@)));
            assert forall|w: Seq<char>|
                #[trigger] g_derives(self@, w) == g_derives(old(self)@, w) by {
                lemma_compacted_language(old(self)@, self@, w);
            }
        }
    }
}

} // verus!

verus! {

/// When every rule below the bound is reachable, compaction assigns
/// every rule its own index.
pub proof fn lemma_reach_upto_identity(rules: Seq<Seq<Seq<TokenModel>>>, start: int, i: int)
    requires
        forall|r: int| 0 <= r < i ==> reachable(rules, start, r),
    ensures
        reach_upto(rules, start, i) == if i <= 0 {
            0int
        } else {
            i
        },
    decreases i,
{
    if i > 0 {
        lemma_reach_upto_identity(rules, start, i - 1);
    }
}

/// Compacted indices of two distinct reachable rules differ.
pub proof fn lemma_reach_upto_injective(
    rules: Seq<Seq<Seq<TokenModel>>>,
    start: int,
    m: int,
    m2: int,
)
    requires
        0 <= m,
        0 <= m2,
        m != m2,
        reachable(rules, start, m),
        reachable(rules, start, m2),
    ensures
        reach_upto(rules, start, m) != reach_upto(rules, start, m2),
{
    if m < m2 {
        lemma_reach_upto_lt(rules, start, m, m2);
    } else {
        lemma_reach_upto_lt(rules, start, m2, m);
    }
}

/// A rule referenced by a reachable rule is reachable.
pub proof fn lemma_reachable_step(rules: Seq<Seq<Seq<TokenModel>>>, start: int, m: int, x: int)
    requires
        0 <= m < rules.len(),
        reachable(rules, start, m),
        references(rules, m, x),
    ensures
        reachable(rules, start, x),
{
    let k = choose|k: nat| reach_k(rules, start, m, k);
    assert(reach_k(rules, start, x, k + 1));
}

/// The compacted-table relation the transport lemmas work against:
/// every reachable rule reappears, remapped, at its compacted index.
pub open spec fn compacted(
    rules: Seq<Seq<Seq<TokenModel>>>,
    start: int,
    rules2: Seq<Seq<Seq<TokenModel>>>,
) -> bool {
    &&& rules2.len() == reach_upto(rules, start, rules.len() as int)
    &&& forall|r: int|
        0 <= r < rules.len() && reachable(rules, start, r)
            ==> #[trigger] rules2[reach_upto(rules, start, r)] == remap_rule(rules, start, rules[r])
}

/// Reachability survives compaction: a walk of the original table maps
/// to a walk of the compacted table.
pub proof fn lemma_reach_transport(
    rules: Seq<Seq<Seq<TokenModel>>>,
    start: int,
    rules2: Seq<Seq<Seq<TokenModel>>>,
    i: int,
    k: nat,
)
    requires
        0 <= start < rules.len(),
        wf_rules(rules),
        compacted(rules, start, rules2),
        reach_k(rules, start, i, k),
        0 <= i < rules.len(),
    ensures
        reach_k(rules2, reach_upto(rules, start, start), reach_upto(rules, start, i), k),
    decreases k,
{
    if k == 0 {
    } else {
        if reach_k(rules, start, i, (k - 1) as nat) {
            lemma_reach_transport(rules, start, rules2, i, (k - 1) as nat);
        } else {
            let m = choose|m: int|
                0 <= m < rules.len() && reach_k(rules, start, m, (k - 1) as nat) && references(
                    rules,
                    m,
                    i,
                );
            lemma_reach_transport(rules, start, rules2, m, (k - 1) as nat);
            assert(reachable(rules, start, m));
            lemma_reach_upto_lt(rules, start, m, rules.len() as int);
            let (d, t) = choose|d: int, t: int|
                0 <= d < rules[m].len() && 0 <= t < rules[m][d].len() && rules[m][d][t]
                    == TokenModel::NT(i);
            assert(rules2[reach_upto(rules, start, m)] == remap_rule(rules, start, rules[m]));
            assert(rules2[reach_upto(rules, start, m)][d] == remap_def(rules, start, rules[m][d]));
            assert(rules2[reach_upto(rules, start, m)][d][t] == remap_tok(
                rules,
                start,
                rules[m][d][t],
            ));
            assert(rules2[reach_upto(rules, start, m)][d][t] == TokenModel::NT(
                reach_upto(rules, start, i),
            ));
            assert(references(rules2, reach_upto(rules, start, m), reach_upto(rules, start, i)));
            lemma_reach_upto_le(rules, start, m);
            assert(0 <= reach_upto(rules, start, m) < rules2.len());
        }
    }
}

/// The compacted indices of a set of rules.
pub open spec fn image_upto(
    rules: Seq<Seq<Seq<TokenModel>>>,
    start: int,
    a: Set<int>,
) -> Set<int> {
    Set::new(|y: int| exists|x: int| #[trigger] a.contains(x) && y == reach_upto(rules, start, x))
}

/// Possibility survives compaction: a derivation of the original table,
/// avoiding a set of reachable rules, maps to a derivation of the
/// compacted table avoiding their compacted indices.
pub proof fn lemma_possible_transport(
    rules: Seq<Seq<Seq<TokenModel>>>,
    start: int,
    rules2: Seq<Seq<Seq<TokenModel>>>,
    avoid: Set<int>,
    i: int,
    k: nat,
)
    requires
        0 <= start < rules.len(),
        wf_rules(rules),
        compacted(rules, start, rules2),
        possible_avoid(rules, avoid, i, k),
        0 <= i < rules.len(),
        reachable(rules, start, i),
        forall|x: int| #[trigger] avoid.contains(x) ==> 0 <= x < rules.len() && reachable(
            rules,
            start,
            x,
        ),
    ensures
        possible_avoid(rules2, image_upto(rules, start, avoid), reach_upto(rules, start, i), k),
    decreases k,
{
    let off_i = reach_upto(rules, start, i);
    let img = image_upto(rules, start, avoid);
    assert(!img.contains(off_i)) by {
        if img.contains(off_i) {
            let x = choose|x: int| #[trigger] avoid.contains(x) && off_i == reach_upto(
                rules,
                start,
                x,
            );
            if x == i {
                assert(avoid.contains(i));
            } else {
                lemma_reach_upto_injective(rules, start, x, i);
            }
            assert(false);
        }
    }
    lemma_reach_upto_lt(rules, start, i, rules.len() as int);
    lemma_reach_upto_le(rules, start, i);
    let d = choose|d: int|
        0 <= d < rules[i].len() && def_possible(rules, avoid.insert(i), #[trigger] rules[i][d], k);
    assert(rules2[off_i] == remap_rule(rules, start, rules[i]));
    let rd = rules2[off_i][d];
    assert(rd == remap_def(rules, start, rules[i][d]));
    let img1 = image_upto(rules, start, avoid.insert(i));
    assert(img1 =~= img.insert(off_i)) by {
        assert forall|y: int| img1.contains(y) implies img.insert(off_i).contains(y) by {
            let x = choose|x: int| #[trigger] avoid.insert(i).contains(x) && y == reach_upto(
                rules,
                start,
                x,
            );
            if x != i {
                assert(avoid.contains(x));
                assert(img.contains(y));
            }
        }
        assert forall|y: int| img.insert(off_i).contains(y) implies img1.contains(y) by {
            if y == off_i {
                assert(avoid.insert(i).contains(i) && y == reach_upto(rules, start, i));
            } else {
                assert(img.contains(y));
                let x = choose|x: int| #[trigger] avoid.contains(x) && y == reach_upto(
                    rules,
                    start,
                    x,
                );
                assert(avoid.insert(i).contains(x));
            }
        }
    }
    assert forall|t: int| 0 <= t < rd.len() && (#[trigger] rd[t]) is NT implies k > 0
        && possible_avoid(rules2, img1, rd[t]->NT_0, (k - 1) as nat) by {
        assert(rd[t] == remap_tok(rules, start, rules[i][d][t]));
        assert(rules[i][d][t] is NT);
        let m = rules[i][d][t]->NT_0;
        assert(k > 0 && possible_avoid(rules, avoid.insert(i), m, (k - 1) as nat));
        assert(0 <= m < rules.len());
        assert(references(rules, i, m)) by {
            assert(rules[i][d][t] == TokenModel::NT(m));
        }
        lemma_reachable_step(rules, start, i, m);
        lemma_possible_transport(rules, start, rules2, avoid.insert(i), m, (k - 1) as nat);
        assert(rd[t]->NT_0 == reach_upto(rules, start, m));
    }
    assert(def_possible(rules2, img1, rd, k));
    assert(def_possible(rules2, img.insert(off_i), rules2[off_i][d], k));
    assert(rules2[off_i].len() == rules[i].len());
    assert(0 <= d < rules2[off_i].len());
}

/// The compacted indices of no rules at all.
pub proof fn lemma_image_empty(rules: Seq<Seq<Seq<TokenModel>>>, start: int)
    ensures
        image_upto(rules, start, Set::<int>::empty()) =~= Set::<int>::empty(),
{
}

} // verus!

verus! {

/// Remapping keeps the order of two tokens whose references are
/// reachable, and maps distinct tokens to distinct tokens.
pub proof fn lemma_remap_tok_order(
    rules: Seq<Seq<Seq<TokenModel>>>,
    start: int,
    x: TokenModel,
    y: TokenModel,
)
    requires
        x is NT ==> 0 <= x->NT_0 && reachable(rules, start, x->NT_0),
        y is NT ==> 0 <= y->NT_0 && reachable(rules, start, y->NT_0),
    ensures
        crate::order::tok_lt(remap_tok(rules, start, x), remap_tok(rules, start, y))
            == crate::order::tok_lt(x, y),
        (remap_tok(rules, start, x) == remap_tok(rules, start, y)) == (x == y),
{
    match (x, y) {
        (TokenModel::NT(m), TokenModel::NT(m2)) => {
            if m < m2 {
                lemma_reach_upto_lt(rules, start, m, m2);
            } else if m2 < m {
                lemma_reach_upto_lt(rules, start, m2, m);
            }
        },
        _ => {},
    }
}

/// Remapping keeps the order of two definitions whose references are
/// reachable, and maps distinct definitions to distinct definitions.
pub proof fn lemma_remap_def_order(
    rules: Seq<Seq<Seq<TokenModel>>>,
    start: int,
    a: Seq<TokenModel>,
    b: Seq<TokenModel>,
)
    requires
        forall|t: int|
            0 <= t < a.len() && (#[trigger] a[t]) is NT ==> 0 <= a[t]->NT_0 && reachable(
                rules,
                start,
                a[t]->NT_0,
            ),
        forall|t: int|
            0 <= t < b.len() && (#[trigger] b[t]) is NT ==> 0 <= b[t]->NT_0 && reachable(
                rules,
                start,
                b[t]->NT_0,
            ),
    ensures
        crate::order::def_lt(remap_def(rules, start, a), remap_def(rules, start, b))
            == crate::order::def_lt(a, b),
        (remap_def(rules, start, a) == remap_def(rules, start, b)) == (a == b),
    decreases a.len(),
{
    let ra = remap_def(rules, start, a);
    let rb = remap_def(rules, start, b);
    assert(ra.len() == a.len());
    assert(rb.len() == b.len());
    if a.len() == 0 || b.len() == 0 {
        if a.len() == 0 && b.len() == 0 {
            assert(ra =~= rb);
            assert(a =~= b);
        } else {
            assert(ra != rb) by {
                assert(ra.len() != rb.len());
            }
        }
    } else {
        assert(ra[0] == remap_tok(rules, start, a[0]));
        assert(rb[0] == remap_tok(rules, start, b[0]));
        lemma_remap_tok_order(rules, start, a[0], b[0]);
        let a1 = a.drop_first();
        let b1 = b.drop_first();
        assert forall|t: int| 0 <= t < a1.len() && (#[trigger] a1[t]) is NT implies 0 <= a1[t]->NT_0
            && reachable(rules, start, a1[t]->NT_0) by {
            assert(a1[t] == a[t + 1]);
        }
        assert forall|t: int| 0 <= t < b1.len() && (#[trigger] b1[t]) is NT implies 0 <= b1[t]->NT_0
            && reachable(rules, start, b1[t]->NT_0) by {
            assert(b1[t] == b[t + 1]);
        }
        lemma_remap_def_order(rules, start, a1, b1);
        assert(ra.drop_first() =~= remap_def(rules, start, a1));
        assert(rb.drop_first() =~= remap_def(rules, start, b1));
        if a[0] == b[0] {
            assert(ra[0] == rb[0]);
            if remap_def(rules, start, a1) == remap_def(rules, start, b1) {
                crate::order::lemma_head_tail_eq(ra, rb);
                crate::order::lemma_head_tail_eq(a, b);
            } else {
                assert(ra != rb) by {
                    if ra == rb {
                        assert(ra.drop_first() == rb.drop_first());
                    }
                }
                assert(a != b) by {
                    if a == b {
                        assert(a.drop_first() == b.drop_first());
                    }
                }
            }
        } else {
            assert(ra[0] != rb[0]);
            assert(ra != rb);
            assert(a != b);
        }
    }
}

} // verus!

verus! {

/// Shrinking the avoided set keeps a derivation valid.
pub proof fn lemma_possible_avoid_shrink(
    rules: Seq<Seq<Seq<TokenModel>>>,
    a1: Set<int>,
    a2: Set<int>,
    i: int,
    k: nat,
)
    requires
        possible_avoid(rules, a1, i, k),
        a2.subset_of(a1),
    ensures
        possible_avoid(rules, a2, i, k),
    decreases k,
{
    let d = choose|d: int|
        0 <= d < rules[i].len() && def_possible(rules, a1.insert(i), #[trigger] rules[i][d], k);
    let def = rules[i][d];
    assert forall|t: int| 0 <= t < def.len() && (#[trigger] def[t]) is NT implies k > 0
        && possible_avoid(rules, a2.insert(i), def[t]->NT_0, (k - 1) as nat) by {
        assert(k > 0 && possible_avoid(rules, a1.insert(i), def[t]->NT_0, (k - 1) as nat));
        assert(a2.insert(i).subset_of(a1.insert(i)));
        lemma_possible_avoid_shrink(rules, a1.insert(i), a2.insert(i), def[t]->NT_0, (k - 1) as nat);
    }
    assert(def_possible(rules, a2.insert(i), rules[i][d], k));
}

/// A derivation survives clearing the rules that can produce nothing:
/// every rule it walks through can produce a word, so its alternatives
/// are kept.
pub proof fn lemma_possible_flatten(
    rules: Seq<Seq<Seq<TokenModel>>>,
    rules2: Seq<Seq<Seq<TokenModel>>>,
    avoid: Set<int>,
    i: int,
    k: nat,
)
    requires
        rules2.len() == rules.len(),
        forall|r: int|
            0 <= r < rules.len() ==> #[trigger] rules2[r] == if possible(rules, r) {
                rules[r]
            } else {
                Seq::<Seq<TokenModel>>::empty()
            },
        possible_avoid(rules, avoid, i, k),
    ensures
        possible_avoid(rules2, avoid, i, k),
    decreases k,
{
    lemma_possible_avoid_shrink(rules, avoid, Set::<int>::empty(), i, k);
    assert(possible(rules, i));
    assert(rules2[i] == rules[i]);
    let d = choose|d: int|
        0 <= d < rules[i].len() && def_possible(rules, avoid.insert(i), #[trigger] rules[i][d], k);
    let def = rules[i][d];
    assert forall|t: int| 0 <= t < def.len() && (#[trigger] def[t]) is NT implies k > 0
        && possible_avoid(rules2, avoid.insert(i), def[t]->NT_0, (k - 1) as nat) by {
        assert(k > 0 && possible_avoid(rules, avoid.insert(i), def[t]->NT_0, (k - 1) as nat));
        lemma_possible_flatten(rules, rules2, avoid.insert(i), def[t]->NT_0, (k - 1) as nat);
    }
    assert(def_possible(rules2, avoid.insert(i), rules2[i][d], k));
}

/// A token over the reachable part of the table derives the same
/// words after compaction: its remapped form, over the compacted
/// table, yields exactly what it yielded before.
pub proof fn lemma_tok_derives_remap(
    rules: Seq<Seq<Seq<TokenModel>>>,
    start: int,
    rules2: Seq<Seq<Seq<TokenModel>>>,
    t: TokenModel,
    w: Seq<char>,
    k: nat,
)
    requires
        wf_rules(rules),
        0 <= start < rules.len(),
        compacted(rules, start, rules2),
        t is NT ==> 0 <= t->NT_0 < rules.len() && reachable(rules, start, t->NT_0),
    ensures
        tok_derives(rules2, remap_tok(rules, start, t), w, k) == tok_derives(rules, t, w, k),
    decreases k, 0int, 0int,
{
    match t {
        TokenModel::T(_) => {},
        TokenModel::NT(r) => {
            let m = reach_upto(rules, start, r);
            lemma_reach_upto_le(rules, start, r);
            lemma_reach_upto_lt(rules, start, r, rules.len() as int);
            assert(rules2[m] == remap_rule(rules, start, rules[r]));
            assert(rules2[m].len() == rules[r].len());
            if k > 0 {
                if tok_derives(rules, t, w, k) {
                    let d = choose|d: int|
                        0 <= d < rules[r].len() && def_derives(
                            rules,
                            #[trigger] rules[r][d],
                            w,
                            (k - 1) as nat,
                        );
                    assert forall|j: int|
                        0 <= j < rules[r][d].len() && (#[trigger] rules[r][d][j]) is NT implies 0
                        <= rules[r][d][j]->NT_0 < rules.len() && reachable(
                        rules,
                        start,
                        rules[r][d][j]->NT_0,
                    ) by {
                        assert(0 <= d < rules[r].len() && 0 <= j < rules[r][d].len()
                            && rules[r][d][j] == TokenModel::NT(rules[r][d][j]->NT_0));
                        assert(references(rules, r, rules[r][d][j]->NT_0));
                        lemma_reachable_step(rules, start, r, rules[r][d][j]->NT_0);
                    }
                    lemma_def_derives_remap(rules, start, rules2, rules[r][d], w, (k - 1) as nat);
                    assert(rules2[m][d] == remap_def(rules, start, rules[r][d]));
                    assert(def_derives(rules2, rules2[m][d], w, (k - 1) as nat));
                    assert(tok_derives(rules2, TokenModel::NT(m), w, k));
                }
                if tok_derives(rules2, TokenModel::NT(m), w, k) {
                    let d = choose|d: int|
                        0 <= d < rules2[m].len() && def_derives(
                            rules2,
                            #[trigger] rules2[m][d],
                            w,
                            (k - 1) as nat,
                        );
                    assert(rules2[m][d] == remap_def(rules, start, rules[r][d]));
                    assert forall|j: int|
                        0 <= j < rules[r][d].len() && (#[trigger] rules[r][d][j]) is NT implies 0
                        <= rules[r][d][j]->NT_0 < rules.len() && reachable(
                        rules,
                        start,
                        rules[r][d][j]->NT_0,
                    ) by {
                        assert(0 <= d < rules[r].len() && 0 <= j < rules[r][d].len()
                            && rules[r][d][j] == TokenModel::NT(rules[r][d][j]->NT_0));
                        assert(references(rules, r, rules[r][d][j]->NT_0));
                        lemma_reachable_step(rules, start, r, rules[r][d][j]->NT_0);
                    }
                    lemma_def_derives_remap(rules, start, rules2, rules[r][d], w, (k - 1) as nat);
                    assert(def_derives(rules, rules[r][d], w, (k - 1) as nat));
                    assert(tok_derives(rules, t, w, k));
                }
            }
        },
    }
}

/// A definition over the reachable part of the table derives the same
/// words after compaction.
pub proof fn lemma_def_derives_remap(
    rules: Seq<Seq<Seq<TokenModel>>>,
    start: int,
    rules2: Seq<Seq<Seq<TokenModel>>>,
    def: Seq<TokenModel>,
    w: Seq<char>,
    k: nat,
)
    requires
        wf_rules(rules),
        0 <= start < rules.len(),
        compacted(rules, start, rules2),
        forall|j: int|
            0 <= j < def.len() && (#[trigger] def[j]) is NT ==> 0 <= def[j]->NT_0 < rules.len()
                && reachable(rules, start, def[j]->NT_0),
    ensures
        def_derives(rules2, remap_def(rules, start, def), w, k) == def_derives(rules, def, w, k),
    decreases k, 1int, def.len(),
{
    let rdef = remap_def(rules, start, def);
    assert(rdef.len() == def.len());
    if def.len() > 0 {
        assert(rdef[0] == remap_tok(rules, start, def[0]));
        assert(rdef.drop_first() =~= remap_def(rules, start, def.drop_first()));
        assert forall|j: int|
            0 <= j < def.drop_first().len() && (#[trigger] def.drop_first()[j]) is NT implies 0
            <= def.drop_first()[j]->NT_0 < rules.len() && reachable(
            rules,
            start,
            def.drop_first()[j]->NT_0,
        ) by {
            assert(def.drop_first()[j] == def[j + 1]);
        }
        assert(def[0] is NT ==> 0 <= def[0]->NT_0 < rules.len() && reachable(
            rules,
            start,
            def[0]->NT_0,
        ));
        if def_derives(rules, def, w, k) {
            let i = choose|i: int|
                0 <= i <= w.len() && tok_derives(rules, def[0], #[trigger] w.take(i), k)
                    && def_derives(rules, def.drop_first(), w.skip(i), k);
            lemma_tok_derives_remap(rules, start, rules2, def[0], w.take(i), k);
            lemma_def_derives_remap(rules, start, rules2, def.drop_first(), w.skip(i), k);
            assert(tok_derives(rules2, rdef[0], w.take(i), k));
            assert(def_derives(rules2, rdef.drop_first(), w.skip(i), k));
            assert(def_derives(rules2, rdef, w, k));
        }
        if def_derives(rules2, rdef, w, k) {
            let i = choose|i: int|
                0 <= i <= w.len() && tok_derives(rules2, rdef[0], #[trigger] w.take(i), k)
                    && def_derives(rules2, rdef.drop_first(), w.skip(i), k);
            lemma_tok_derives_remap(rules, start, rules2, def[0], w.take(i), k);
            lemma_def_derives_remap(rules, start, rules2, def.drop_first(), w.skip(i), k);
            assert(tok_derives(rules, def[0], w.take(i), k));
            assert(def_derives(rules, def.drop_first(), w.skip(i), k));
            assert(def_derives(rules, def, w, k));
        }
    }
}

/// Compaction keeps the language: the compacted grammar yields exactly
/// the words the full one did.
pub proof fn lemma_compacted_language(g: GrammarModel, g2: GrammarModel, w: Seq<char>)
    requires
        g.wf(),
        compacted(g.rules, g.start, g2.rules),
        g2.start == reach_upto(g.rules, g.start, g.start),
    ensures
        g_derives(g2, w) == g_derives(g, w),
{
    assert(reach_k(g.rules, g.start, g.start, 0));
    assert(reachable(g.rules, g.start, g.start));
    assert(remap_tok(g.rules, g.start, TokenModel::NT(g.start)) == TokenModel::NT(g2.start));
    if g_derives(g, w) {
        let k = choose|k: nat| #[trigger] tok_derives(g.rules, TokenModel::NT(g.start), w, k);
        lemma_tok_derives_remap(g.rules, g.start, g2.rules, TokenModel::NT(g.start), w, k);
        assert(tok_derives(g2.rules, TokenModel::NT(g2.start), w, k));
        assert(g_derives(g2, w));
    }
    if g_derives(g2, w) {
        let k = choose|k: nat| #[trigger] tok_derives(g2.rules, TokenModel::NT(g2.start), w, k);
        lemma_tok_derives_remap(g.rules, g.start, g2.rules, TokenModel::NT(g.start), w, k);
        assert(tok_derives(g.rules, TokenModel::NT(g.start), w, k));
        assert(g_derives(g, w));
    }
}

} // verus!
