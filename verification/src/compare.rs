//! A bounded comparison of the languages of two normal-form grammars: a
//! windowed diff of the first words each one produces.

use vstd::prelude::*;
use crate::chomsky::{Grammar, derives};
use crate::grammar::Terminal;
use crate::producer::{Producer, bucket_view, sorted_words, lang_word, saturated,
    covered_up_to, lemma_outputs_monotone};
use crate::order::{word_lt, term_cmp, lemma_word_lt_total, lemma_word_lt_asym,
    lemma_word_lt_trans};

verus! {

/// The three outcomes of a diff of two word sequences.
pub ghost struct DiffModel {
    pub first: Seq<Seq<char>>,
    pub second: Seq<Seq<char>>,
    pub both: Seq<Seq<char>>,
}

/// The two-pointer diff of two sorted word sequences: a shared head goes
/// to `both`, a smaller head to its own side, and the walk stops as soon
/// as either sequence is exhausted — what remains of the other is not
/// reported.
pub open spec fn merge_diff(a: Seq<Seq<char>>, b: Seq<Seq<char>>) -> DiffModel
    decreases a.len() + b.len(),
{
    if a.len() == 0 || b.len() == 0 {
        DiffModel {
            first: Seq::<Seq<char>>::empty(),
            second: Seq::<Seq<char>>::empty(),
            both: Seq::<Seq<char>>::empty(),
        }
    } else if a[0] == b[0] {
        let m = merge_diff(a.drop_first(), b.drop_first());
        DiffModel { first: m.first, second: m.second, both: seq![a[0]] + m.both }
    } else if word_lt(a[0], b[0]) {
        let m = merge_diff(a.drop_first(), b);
        DiffModel { first: seq![a[0]] + m.first, second: m.second, both: m.both }
    } else {
        let m = merge_diff(a, b.drop_first());
        DiffModel { first: m.first, second: seq![b[0]] + m.second, both: m.both }
    }
}

/// Two equal sequences share everything: the diff of a sequence with
/// itself reports no one-sided words and all shared ones.
pub proof fn lemma_merge_diff_equal(a: Seq<Seq<char>>)
    ensures
        merge_diff(a, a).first == Seq::<Seq<char>>::empty(),
        merge_diff(a, a).second == Seq::<Seq<char>>::empty(),
        merge_diff(a, a).both == a,
    decreases a.len(),
{
    if a.len() > 0 {
        lemma_merge_diff_equal(a.drop_first());
        assert(seq![a[0]] + a.drop_first() =~= a);
    }
}

/// The diff of two sorted windows has sorted outcomes, and no outcome
/// starts before the corresponding input's head.
pub proof fn lemma_merge_diff_sorted(a: Seq<Seq<char>>, b: Seq<Seq<char>>)
    requires
        sorted_words(a),
        sorted_words(b),
    ensures
        sorted_words(merge_diff(a, b).first),
        sorted_words(merge_diff(a, b).second),
        sorted_words(merge_diff(a, b).both),
        merge_diff(a, b).first.len() > 0 && a.len() > 0 ==> !word_lt(
            merge_diff(a, b).first[0],
            a[0],
        ),
        merge_diff(a, b).second.len() > 0 && b.len() > 0 ==> !word_lt(
            merge_diff(a, b).second[0],
            b[0],
        ),
        merge_diff(a, b).both.len() > 0 && a.len() > 0 ==> !word_lt(merge_diff(a, b).both[0], a[0]),
        merge_diff(a, b).both.len() > 0 && b.len() > 0 ==> !word_lt(merge_diff(a, b).both[0], b[0]),
    decreases a.len() + b.len(),
{
    if a.len() == 0 || b.len() == 0 {
    } else {
        let a1 = a.drop_first();
        let b1 = b.drop_first();
        assert(sorted_words(a1)) by {
            assert forall|i: int, j: int| 0 <= i < j < a1.len() implies word_lt(a1[i], a1[j]) by {
                assert(a1[i] == a[i + 1] && a1[j] == a[j + 1]);
            }
        }
        assert(sorted_words(b1)) by {
            assert forall|i: int, j: int| 0 <= i < j < b1.len() implies word_lt(b1[i], b1[j]) by {
                assert(b1[i] == b[i + 1] && b1[j] == b[j + 1]);
            }
        }
        let m = merge_diff(a, b);
        if a[0] == b[0] {
            lemma_merge_diff_sorted(a1, b1);
            let t = merge_diff(a1, b1);
            assert(m.both == seq![a[0]] + t.both);
            assert forall|i: int, j: int| 0 <= i < j < m.both.len() implies word_lt(
                m.both[i],
                m.both[j],
            ) by {
                if i > 0 {
                    assert(m.both[i] == t.both[i - 1] && m.both[j] == t.both[j - 1]);
                } else {
                    assert(m.both[j] == t.both[j - 1]);
                    lemma_head_in_order(a, a1, t.both, j - 1);
                }
            }
            assert(m.both.len() > 0 ==> m.both[0] == a[0]);
            if m.both.len() > 0 {
                lemma_word_lt_asym(m.both[0], a[0]);
            }
            lemma_tail_bound(a, a1, m.first);
            lemma_tail_bound(b, b1, m.second);
        } else if word_lt(a[0], b[0]) {
            lemma_merge_diff_sorted(a1, b);
            let t = merge_diff(a1, b);
            assert(m.first == seq![a[0]] + t.first);
            assert forall|i: int, j: int| 0 <= i < j < m.first.len() implies word_lt(
                m.first[i],
                m.first[j],
            ) by {
                if i > 0 {
                    assert(m.first[i] == t.first[i - 1] && m.first[j] == t.first[j - 1]);
                } else {
                    assert(m.first[j] == t.first[j - 1]);
                    lemma_head_in_order(a, a1, t.first, j - 1);
                }
            }
            if m.first.len() > 0 {
                lemma_word_lt_asym(m.first[0], a[0]);
            }
            lemma_tail_bound(a, a1, m.both);
            if m.both.len() > 0 {
                lemma_word_lt_trans_neg(m.both[0], b[0], a[0]);
            }
        } else {
            lemma_word_lt_total(a[0], b[0]);
            assert(word_lt(b[0], a[0]));
            lemma_merge_diff_sorted(a, b1);
            let t = merge_diff(a, b1);
            assert(m.second == seq![b[0]] + t.second);
            assert forall|i: int, j: int| 0 <= i < j < m.second.len() implies word_lt(
                m.second[i],
                m.second[j],
            ) by {
                if i > 0 {
                    assert(m.second[i] == t.second[i - 1] && m.second[j] == t.second[j - 1]);
                } else {
                    assert(m.second[j] == t.second[j - 1]);
                    lemma_head_in_order(b, b1, t.second, j - 1);
                }
            }
            if m.second.len() > 0 {
                lemma_word_lt_asym(m.second[0], b[0]);
            }
            lemma_tail_bound(b, b1, m.both);
            if m.both.len() > 0 {
                lemma_word_lt_trans_neg(m.both[0], a[0], b[0]);
            }
        }
    }
}

/// A sequence bounded below by the tail's head is strictly above the
/// head of a sorted sequence.
proof fn lemma_head_in_order(a: Seq<Seq<char>>, a1: Seq<Seq<char>>, out: Seq<Seq<char>>, k: int)
    requires
        a.len() > 0,
        a1 == a.drop_first(),
        sorted_words(a),
        sorted_words(out),
        0 <= k < out.len(),
        out.len() > 0 && a1.len() > 0 ==> !word_lt(out[0], a1[0]),
        a1.len() > 0 || out.len() == 0,
    ensures
        word_lt(a[0], out[k]),
{
    assert(a1[0] == a[1]);
    assert(word_lt(a[0], a[1]));
    lemma_word_lt_total(out[0], a1[0]);
    if out[0] == a1[0] {
        if k == 0 {
        } else {
            lemma_word_lt_trans(a[0], out[0], out[k]);
        }
    } else {
        assert(word_lt(a1[0], out[0]));
        lemma_word_lt_trans(a[0], a1[0], out[0]);
        if k > 0 {
            lemma_word_lt_trans(a[0], out[0], out[k]);
        }
    }
}

/// A head bound against the tail carries down to the dropped head.
proof fn lemma_tail_bound(a: Seq<Seq<char>>, a1: Seq<Seq<char>>, out: Seq<Seq<char>>)
    requires
        a.len() > 0,
        a1 == a.drop_first(),
        sorted_words(a),
        out.len() > 0 && a1.len() > 0 ==> !word_lt(out[0], a1[0]),
        a1.len() > 0 || out.len() == 0,
    ensures
        out.len() > 0 ==> !word_lt(out[0], a[0]),
{
    if out.len() > 0 {
        assert(a1[0] == a[1]);
        assert(word_lt(a[0], a[1]));
        if word_lt(out[0], a[0]) {
            lemma_word_lt_trans(out[0], a[0], a1[0]);
        }
    }
}

/// What is not below the larger is not below the smaller.
proof fn lemma_word_lt_trans_neg(x: Seq<char>, big: Seq<char>, small: Seq<char>)
    requires
        !word_lt(x, big),
        word_lt(small, big),
    ensures
        !word_lt(x, small),
{
    if word_lt(x, small) {
        lemma_word_lt_trans(x, small, big);
    }
}

/// The words only the first grammar produced, the words only the second
/// produced, and the words both produced, within the compared window.
#[derive(Debug)]
pub struct Comparison {
    pub first: Vec<Terminal>,
    pub second: Vec<Terminal>,
    pub both: Vec<Terminal>,
}

/// Compares two words: by length first, then by the natural character
/// order. 0 for equal, 1 when `a` comes first, 2 when `b` comes first.
fn word_cmp(a: &Terminal, b: &Terminal) -> (r: u8)
    ensures
        (r == 0) == (a@ == b@),
        (r == 1) == word_lt(a@, b@),
        (r == 2) == word_lt(b@, a@),
{
    if a.len() < b.len() {
        1
    } else if b.len() < a.len() {
        2
    } else {
        term_cmp(a, b)
    }
}

/// The two-pointer walk over two sorted word lists.
fn merge(w1: Vec<Terminal>, w2: Vec<Terminal>) -> (out: Comparison)
    ensures
        bucket_view(out.first) == merge_diff(bucket_view(w1), bucket_view(w2)).first,
        bucket_view(out.second) == merge_diff(bucket_view(w1), bucket_view(w2)).second,
        bucket_view(out.both) == merge_diff(bucket_view(w1), bucket_view(w2)).both,
{
    let ghost av = bucket_view(w1);
    let ghost bv = bucket_view(w2);
    let mut first: Vec<Terminal> = Vec::new();
    let mut second: Vec<Terminal> = Vec::new();
    let mut both: Vec<Terminal> = Vec::new();
    let mut p1: usize = 0;
    let mut p2: usize = 0;
    proof {
        assert(av.skip(0) =~= av);
        assert(bv.skip(0) =~= bv);
        assert(bucket_view(first) + merge_diff(av, bv).first =~= merge_diff(av, bv).first);
        assert(bucket_view(second) + merge_diff(av, bv).second =~= merge_diff(av, bv).second);
        assert(bucket_view(both) + merge_diff(av, bv).both =~= merge_diff(av, bv).both);
    }
    while p1 < w1.len() && p2 < w2.len()
        invariant
            p1 <= w1.len(),
            p2 <= w2.len(),
            av == bucket_view(w1),
            bv == bucket_view(w2),
            av.len() == w1@.len(),
            bv.len() == w2@.len(),
            merge_diff(av, bv).first == bucket_view(first) + merge_diff(
                av.skip(p1 as int),
                bv.skip(p2 as int),
            ).first,
            merge_diff(av, bv).second == bucket_view(second) + merge_diff(
                av.skip(p1 as int),
                bv.skip(p2 as int),
            ).second,
            merge_diff(av, bv).both == bucket_view(both) + merge_diff(
                av.skip(p1 as int),
                bv.skip(p2 as int),
            ).both,
        decreases w1.len() + w2.len() - p1 - p2,
    {
        proof {
            assert(av.skip(p1 as int)[0] == av[p1 as int]);
            assert(bv.skip(p2 as int)[0] == bv[p2 as int]);
            assert(av.skip(p1 as int).drop_first() =~= av.skip(p1 + 1));
            assert(bv.skip(p2 as int).drop_first() =~= bv.skip(p2 + 1));
            assert(av[p1 as int] == w1@[p1 as int]@);
            assert(bv[p2 as int] == w2@[p2 as int]@);
        }
        let c = word_cmp(&w1[p1], &w2[p2]);
        if c == 0 {
            let ghost prev = bucket_view(both);
            both.push(w1[p1].clone());
            proof {
                assert(bucket_view(both) =~= prev.push(av[p1 as int]));
                assert(prev + (seq![av[p1 as int]] + merge_diff(
                    av.skip(p1 + 1),
                    bv.skip(p2 + 1),
                ).both) =~= bucket_view(both) + merge_diff(av.skip(p1 + 1), bv.skip(p2 + 1)).both);
            }
            p1 += 1;
            p2 += 1;
        } else if c == 1 {
            let ghost prev = bucket_view(first);
            first.push(w1[p1].clone());
            proof {
                assert(bucket_view(first) =~= prev.push(av[p1 as int]));
                assert(prev + (seq![av[p1 as int]] + merge_diff(
                    av.skip(p1 + 1),
                    bv.skip(p2 as int),
                ).first) =~= bucket_view(first) + merge_diff(
                    av.skip(p1 + 1),
                    bv.skip(p2 as int),
                ).first);
            }
            p1 += 1;
        } else {
            let ghost prev = bucket_view(second);
            second.push(w2[p2].clone());
            proof {
                assert(bucket_view(second) =~= prev.push(bv[p2 as int]));
                assert(prev + (seq![bv[p2 as int]] + merge_diff(
                    av.skip(p1 as int),
                    bv.skip(p2 + 1),
                ).second) =~= bucket_view(second) + merge_diff(
                    av.skip(p1 as int),
                    bv.skip(p2 + 1),
                ).second);
            }
            p2 += 1;
        }
    }
    proof {
        assert(av.skip(p1 as int).len() == 0 || bv.skip(p2 as int).len() == 0);
        assert(bucket_view(first) + merge_diff(av.skip(p1 as int), bv.skip(p2 as int)).first
            =~= bucket_view(first));
        assert(bucket_view(second) + merge_diff(av.skip(p1 as int), bv.skip(p2 as int)).second
            =~= bucket_view(second));
        assert(bucket_view(both) + merge_diff(av.skip(p1 as int), bv.skip(p2 as int)).both
            =~= bucket_view(both));
    }
    Comparison { first, second, both }
}

impl Comparison {
    /// Pulls up to `limit` words from each grammar's producer and diffs
    /// the two sorted word lists: shared words land in `both`, words
    /// only one grammar produced land in `first` or `second`, and the
    /// walk stops when either list is exhausted.
    pub fn from_grammars(gram1: Grammar, gram2: Grammar, limit: usize) -> (out: Comparison)
        requires
            gram1@.wf(),
            gram2@.wf(),
        ensures
            exists|e1: Seq<Seq<char>>, e2: Seq<Seq<char>>|
                {
                    &&& sorted_words(e1)
                    &&& sorted_words(e2)
                    &&& e1.len() <= limit
                    &&& e2.len() <= limit
                    &&& (forall|i: int|
                        0 <= i < e1.len() ==> ((#[trigger] e1[i]).len() > 0 ==> derives(
                            gram1@.rules,
                            gram1@.start,
                            e1[i],
                        )) && (e1[i].len() == 0 ==> gram1@.null))
                    &&& (forall|i: int|
                        0 <= i < e2.len() ==> ((#[trigger] e2[i]).len() > 0 ==> derives(
                            gram2@.rules,
                            gram2@.start,
                            e2[i],
                        )) && (e2[i].len() == 0 ==> gram2@.null))
                    &&& (e1.len() == limit as int || saturated(gram1@, e1))
                    &&& (e2.len() == limit as int || saturated(gram2@, e2))
                    &&& bucket_view(out.first) == #[trigger] merge_diff(e1, e2).first
                    &&& bucket_view(out.second) == merge_diff(e1, e2).second
                    &&& bucket_view(out.both) == merge_diff(e1, e2).both
                },
            sorted_words(bucket_view(out.first)),
            sorted_words(bucket_view(out.second)),
            sorted_words(bucket_view(out.both)),
    {
        let ghost g1 = gram1@;
        let ghost g2 = gram2@;
        let w1 = pull_words(gram1, limit);
        let w2 = pull_words(gram2, limit);
        proof {
            lemma_merge_diff_sorted(bucket_view(w1), bucket_view(w2));
        }
        merge(w1, w2)
    }
}

/// Pulls up to `limit` words from a fresh producer over the grammar:
/// the first words of the language in the word order, either `limit`
/// many or all the producer finds before its stopping rule fires.
fn pull_words(gram: Grammar, limit: usize) -> (out: Vec<Terminal>)
    requires
        gram@.wf(),
    ensures
        sorted_words(bucket_view(out)),
        bucket_view(out).len() <= limit as int,
        forall|i: int|
            0 <= i < bucket_view(out).len() ==> (((#[trigger] bucket_view(out)[i]).len() > 0
                ==> derives(gram@.rules, gram@.start, bucket_view(out)[i])) && (bucket_view(
                out,
            )[i].len() == 0 ==> gram@.null)),
        bucket_view(out).len() == limit as int || saturated(gram@, bucket_view(out)),
{
    let ghost gm = gram@;
    let mut prod = Producer::new(gram);
    let mut out: Vec<Terminal> = Vec::new();
    let mut k: usize = 0;
    proof {
        assert(bucket_view(out) =~= prod.emitted_words());
    }
    while k < limit
        invariant
            k <= limit,
            prod.wf(),
            prod.grammar_model() == gm,
            bucket_view(out) == prod.emitted_words(),
            bucket_view(out).len() <= k as int,
            bucket_view(out).len() == k as int || (prod.drained() && saturated(
                gm,
                bucket_view(out),
            )),
            forall|i: int|
                0 <= i < prod.emitted_words().len() ==> (((#[trigger] prod.emitted_words()[i]).len()
                    > 0 ==> derives(gm.rules, gm.start, prod.emitted_words()[i])) && (
                prod.emitted_words()[i].len() == 0 ==> gm.null)),
        decreases limit - k,
    {
        match prod.next() {
            Option::Some(w) => {
                let ghost prev = bucket_view(out);
                let ghost wv = w@;
                out.push(w);
                proof {
                    assert(bucket_view(out) =~= prev.push(wv));
                }
            },
            Option::None => {
                proof {
                    assert(covered_up_to(gm, prod.emitted_words(), prod.explored()));
                    assert(saturated(gm, bucket_view(out)));
                }
            },
        }
        k += 1;
    }
    proof {
        lemma_outputs_monotone(&prod);
        assert forall|i: int|
            0 <= i < bucket_view(out).len() implies (((#[trigger] bucket_view(out)[i]).len() > 0
            ==> derives(gm.rules, gm.start, bucket_view(out)[i])) && (bucket_view(out)[i].len()
            == 0 ==> gm.null)) by {
            assert(bucket_view(out)[i] == prod.emitted_words()[i]);
        }
    }
    out
}

} // verus!
