//! Lazy enumeration of a normal-form grammar's language, in length order
//! and, among equal-length words, in the natural character order.

use vstd::prelude::*;
use crate::chomsky::{Grammar, Definition, DefModel, derives, derives_k, lemma_derives_mono,
    lemma_derives_unfold};
use crate::grammar::Terminal;
use crate::order::{lex_lt, word_lt, term_cmp, lemma_lex_lt_total, lemma_lex_lt_asym,
    lemma_lex_lt_trans, lemma_word_lt_total, lemma_word_lt_asym, lemma_word_lt_trans};

verus! {

/// The words of one rule's bucket, as character sequences.
pub open spec fn bucket_view(b: Vec<Terminal>) -> Seq<Seq<char>> {
    b@.map_values(|t: Terminal| t@)
}

/// One length layer: a bucket for every rule.
pub open spec fn layer_view(l: Vec<Vec<Terminal>>) -> Seq<Seq<Seq<char>>> {
    l@.map_values(|b: Vec<Terminal>| bucket_view(b))
}

/// All length layers found so far.
pub open spec fn layers_view(w: Vec<Vec<Vec<Terminal>>>) -> Seq<Seq<Seq<Seq<char>>>> {
    w@.map_values(|l: Vec<Vec<Terminal>>| layer_view(l))
}

/// A bucket is strictly sorted under the lexicographic order.
pub open spec fn sorted_bucket(b: Seq<Seq<char>>) -> bool {
    forall|i: int, j: int| 0 <= i < j < b.len() ==> lex_lt(b[i], b[j])
}

/// The start-rule words of the layers below `upto`, in order.
pub open spec fn flat_start(w: Seq<Seq<Seq<Seq<char>>>>, start: int, upto: int) -> Seq<Seq<char>>
    decreases upto,
{
    if upto <= 0 {
        Seq::<Seq<char>>::empty()
    } else {
        flat_start(w, start, upto - 1) + w[upto - 1][start]
    }
}

/// A word sequence strictly increasing under the word order.
pub open spec fn sorted_words(s: Seq<Seq<char>>) -> bool {
    forall|i: int, j: int| 0 <= i < j < s.len() ==> word_lt(s[i], s[j])
}

/// The concatenation of the `ja`-th word of rule `a` at length `l1`
/// with the `jb`-th word of rule `b` at length `l2`.
pub open spec fn pair_word(
    w: Seq<Seq<Seq<Seq<char>>>>,
    l1: int,
    l2: int,
    a: int,
    b: int,
    ja: int,
    jb: int,
) -> Seq<char> {
    w[l1][a][ja] + w[l2][b][jb]
}

/// `x` belongs to the grammar's language: the start rule derives it, or
/// it is the empty word and the grammar is nullable.
pub open spec fn lang_word(gm: crate::chomsky::CnfModel, x: Seq<char>) -> bool {
    ||| (x.len() > 0 && derives(gm.rules, gm.start, x))
    ||| (x.len() == 0 && gm.null)
}

/// `e` holds every language word shorter than `bound`, and `bound` lies
/// beyond the stopping rule's horizon: past twice the length of every
/// word held, and, when nothing was found at all, past the horizon of
/// the no-word sentinel.
pub open spec fn covered_up_to(gm: crate::chomsky::CnfModel, e: Seq<Seq<char>>, bound: int) -> bool {
    &&& forall|x: Seq<char>| lang_word(gm, x) && x.len() < bound ==> #[trigger] e.contains(x)
    &&& forall|i: int| 0 <= i < e.len() ==> 2 * (#[trigger] e[i]).len() + 1 < bound
    &&& e.len() == 0 ==> 2 * no_word_sentinel() + 1 < bound
}

/// The enumeration `e` is saturated: some bound beyond the stopping
/// rule's horizon exists below which `e` holds the whole language.
pub open spec fn saturated(gm: crate::chomsky::CnfModel, e: Seq<Seq<char>>) -> bool {
    exists|bound: int| #[trigger] covered_up_to(gm, e, bound)
}

/// An enumerator of the words of a grammar's language.
///
/// It hands words out ordered by length and then by the natural order of
/// strings, without repetition and without skipping: every word handed
/// out belongs to the language (the empty word only under the `null`
/// flag), and every language word smaller in that order has been handed
/// out before it.
pub struct Producer {
    grammar: Grammar,
    words: Vec<Vec<Vec<Terminal>>>,
    next: usize,
    emitted: Ghost<Seq<Seq<char>>>,
}

impl Producer {
    /// The grammar this producer enumerates.
    pub closed spec fn grammar_model(&self) -> crate::chomsky::CnfModel {
        self.grammar@
    }

    /// The words handed out so far, in order.
    pub closed spec fn emitted_words(&self) -> Seq<Seq<char>> {
        self.emitted@
    }

    /// Every start-rule word found so far, read or not, in order.
    pub closed spec fn buffered_words(&self) -> Seq<Seq<char>> {
        flat_start(
            layers_view(self.words),
            self.grammar@.start,
            layers_view(self.words).len() as int,
        )
    }

    /// The internal invariant: layer `l` holds, for every rule, a
    /// sorted bucket of length-`l` words that the rule derives, and the
    /// emitted words are the start-rule words of the full layers plus a
    /// prefix of the newest layer.
    pub closed spec fn wf(&self) -> bool {
        let w = layers_view(self.words);
        let rules = self.grammar@.rules;
        let start = self.grammar@.start;
        &&& self.grammar@.wf()
        &&& w.len() >= 1
        &&& forall|l: int| 0 <= l < w.len() ==> (#[trigger] w[l]).len() == rules.len()
        &&& forall|l: int, r: int, i: int|
            0 <= l < w.len() && 0 <= r < rules.len() && 0 <= i < w[l][r].len()
                ==> (#[trigger] w[l][r][i]).len() == l
        &&& forall|l: int, r: int|
            0 <= l < w.len() && 0 <= r < rules.len() ==> sorted_bucket(#[trigger] w[l][r])
        &&& forall|l: int, r: int, i: int|
            0 <= l < w.len() && 0 <= r < rules.len() && 0 <= i < w[l][r].len() ==> ((
            #[trigger] w[l][r][i]).len() > 0 ==> derives(rules, r, w[l][r][i]))
        &&& forall|l: int, r: int, i: int|
            0 <= l < w.len() && 0 <= r < rules.len() && 0 <= i < w[l][r].len()
                ==> ((#[trigger] w[l][r][i]).len() == 0 ==> r == start && self.grammar@.null)
        &&& forall|l: int, r: int, x: Seq<char>|
            0 <= l < w.len() && 0 <= r < rules.len() && x.len() == l && ((l > 0 && derives(
                rules,
                r,
                x,
            )) || (l == 0 && r == start && self.grammar@.null)) ==> #[trigger] w[l][r].contains(x)
        &&& self.next as int <= w[w.len() - 1][start].len()
        &&& self.emitted@ == flat_start(w, start, w.len() - 1) + w[w.len() - 1][start].take(
            self.next as int,
        )
    }
}

/// Inserts a word into a sorted bucket, keeping it sorted and free of
/// duplicates.
fn sorted_insert_word(out: &mut Vec<Terminal>, w: Terminal)
    requires
        sorted_bucket(bucket_view(*old(out))),
    ensures
        sorted_bucket(bucket_view(*final(out))),
        forall|x: Seq<char>| #[trigger] bucket_view(*final(out)).contains(x) <==> (bucket_view(
            *old(out),
        ).contains(x) || x == w@),
{
    let ghost ov = bucket_view(*old(out));
    let ghost wv = w@;
    proof {
        assert(ov.len() == out@.len());
        assert forall|k: int| 0 <= k < ov.len() implies #[trigger] ov[k] == out@[k]@ by {
            assert(bucket_view(*out)[k] == out@[k]@);
        }
    }
    let mut idx: usize = 0;
    let mut stop = false;
    while !stop && idx < out.len()
        invariant
            idx <= out.len(),
            *out == *old(out),
            ov.len() == out@.len(),
            wv == w@,
            forall|k: int| 0 <= k < ov.len() ==> #[trigger] ov[k] == out@[k]@,
            forall|k: int| 0 <= k < idx ==> lex_lt(#[trigger] ov[k], wv),
            stop ==> idx < out@.len() && !lex_lt(ov[idx as int], wv),
        decreases out.len() - idx + (if stop { 0int } else { 1int }),
    {
        let c = term_cmp(&out[idx], &w);
        if c == 1 {
            proof {
                assert(ov[idx as int] == out@[idx as int]@);
            }
            idx += 1;
        } else {
            stop = true;
        }
    }
    let mut is_dup = false;
    if idx < out.len() {
        let c = term_cmp(&out[idx], &w);
        if c == 0 {
            is_dup = true;
        }
    }
    if is_dup {
        proof {
            assert(ov[idx as int] == wv);
            assert(ov.contains(wv));
        }
    } else {
        proof {
            if idx < out.len() {
                lemma_lex_lt_total(ov[idx as int], wv);
                assert(lex_lt(wv, ov[idx as int]));
            }
        }
        out.insert(idx, w);
        proof {
            let nv = bucket_view(*out);
            assert(nv =~= ov.insert(idx as int, wv));
            assert forall|i: int, j: int| 0 <= i < j < nv.len() implies lex_lt(nv[i], nv[j]) by {
                if j < idx {
                    assert(nv[i] == ov[i] && nv[j] == ov[j]);
                } else if i < idx && j == idx {
                    assert(nv[i] == ov[i] && nv[j] == wv);
                } else if i < idx && j > idx {
                    assert(nv[i] == ov[i] && nv[j] == ov[j - 1]);
                } else if i == idx {
                    assert(nv[j] == ov[j - 1]);
                    if j - 1 > idx {
                        lemma_lex_lt_trans(wv, ov[idx as int], ov[j - 1]);
                    }
                } else {
                    assert(nv[i] == ov[i - 1] && nv[j] == ov[j - 1]);
                }
            }
            assert forall|x: Seq<char>| #[trigger] nv.contains(x) implies (ov.contains(x) || x
                == wv) by {
                let k = choose|k: int| 0 <= k < nv.len() && nv[k] == x;
                if k < idx {
                    assert(ov[k] == x);
                } else if k > idx {
                    assert(ov[k - 1] == x);
                }
            }
            assert forall|x: Seq<char>| (ov.contains(x) || x == wv) implies #[trigger] nv.contains(
                x,
            ) by {
                if ov.contains(x) {
                    let k = choose|k: int| 0 <= k < ov.len() && ov[k] == x;
                    if k < idx {
                        assert(nv[k] == x);
                    } else {
                        assert(nv[k + 1] == x);
                    }
                } else {
                    assert(nv[idx as int] == x);
                }
            }
        }
    }
}

/// Concatenates two words.
fn concat_words(a: &Terminal, b: &Terminal) -> (out: Terminal)
    ensures
        out@ == a@ + b@,
{
    let mut out: Terminal = Vec::new();
    let mut i: usize = 0;
    while i < a.len()
        invariant
            i <= a.len(),
            out@ == a@.take(i as int),
        decreases a.len() - i,
    {
        out.push(a[i]);
        proof {
            assert(a@.take(i as int).push(a@[i as int]) =~= a@.take(i + 1));
        }
        i += 1;
    }
    proof {
        assert(a@.take(a@.len() as int) =~= a@);
    }
    let mut j: usize = 0;
    while j < b.len()
        invariant
            j <= b.len(),
            out@ == a@ + b@.take(j as int),
        decreases b.len() - j,
    {
        out.push(b[j]);
        proof {
            assert((a@ + b@.take(j as int)).push(b@[j as int]) =~= a@ + b@.take(j + 1));
        }
        j += 1;
    }
    proof {
        assert(a@ + b@.take(b@.len() as int) =~= a@ + b@);
    }
    out
}

/// The length the stopping rule assumes for the longest word when no
/// word has been found yet.
pub open spec fn no_word_sentinel() -> int {
    1_000_000
}

/// The index of the longest layer whose start bucket is not empty, or
/// the sentinel when none is.
pub open spec fn longest_from(w: Seq<Seq<Seq<Seq<char>>>>, start: int, i: int) -> int
    decreases i,
{
    if i <= 0 {
        no_word_sentinel()
    } else if w[i - 1][start].len() > 0 {
        i - 1
    } else {
        longest_from(w, start, i - 1)
    }
}

/// When no layer holds a start-rule word, the longest-word scan answers
/// the sentinel.
pub proof fn lemma_longest_sentinel(w: Seq<Seq<Seq<Seq<char>>>>, start: int, i: int)
    requires
        forall|l: int| 0 <= l < i ==> (#[trigger] w[l][start]).len() == 0,
    ensures
        longest_from(w, start, i) == no_word_sentinel(),
    decreases i,
{
    if i > 0 {
        lemma_longest_sentinel(w, start, i - 1);
    }
}

/// The longest-word scan depends only on the layers below the bound.
pub proof fn lemma_longest_frame(
    w1: Seq<Seq<Seq<Seq<char>>>>,
    w0: Seq<Seq<Seq<Seq<char>>>>,
    start: int,
    i: int,
)
    requires
        forall|l: int| 0 <= l < i ==> w1[l] == w0[l],
    ensures
        longest_from(w1, start, i) == longest_from(w0, start, i),
    decreases i,
{
    if i > 0 {
        lemma_longest_frame(w1, w0, start, i - 1);
    }
}

/// Pushing a new layer does not change the flattened words of the layers
/// below an existing bound.
pub proof fn lemma_flat_start_push(
    w: Seq<Seq<Seq<Seq<char>>>>,
    x: Seq<Seq<Seq<char>>>,
    start: int,
    upto: int,
)
    requires
        0 <= upto <= w.len(),
    ensures
        flat_start(w.push(x), start, upto) == flat_start(w, start, upto),
    decreases upto,
{
    if upto > 0 {
        lemma_flat_start_push(w, x, start, upto - 1);
        assert(w.push(x)[upto - 1] == w[upto - 1]);
    }
}

/// The flattened start-rule words are sorted under the word order, and
/// all shorter than the bound.
pub proof fn lemma_flat_sorted(w: Seq<Seq<Seq<Seq<char>>>>, start: int, rl: int, upto: int)
    requires
        0 <= upto <= w.len(),
        0 <= start < rl,
        forall|l: int| 0 <= l < w.len() ==> (#[trigger] w[l]).len() == rl,
        forall|l: int, i: int|
            0 <= l < w.len() && 0 <= i < w[l][start].len() ==> (#[trigger] w[l][start][i]).len()
                == l,
        forall|l: int| 0 <= l < w.len() ==> sorted_bucket(#[trigger] w[l][start]),
    ensures
        sorted_words(flat_start(w, start, upto)),
        forall|k: int|
            0 <= k < flat_start(w, start, upto).len() ==> (#[trigger] flat_start(w, start, upto)[k]).len()
                < upto,
    decreases upto,
{
    if upto > 0 {
        lemma_flat_sorted(w, start, rl, upto - 1);
        let pre = flat_start(w, start, upto - 1);
        let cur = flat_start(w, start, upto);
        let b = w[upto - 1][start];
        assert(cur == pre + b);
        assert forall|i: int, j: int| 0 <= i < j < cur.len() implies word_lt(cur[i], cur[j]) by {
            if j < pre.len() {
                assert(cur[i] == pre[i] && cur[j] == pre[j]);
            } else if i >= pre.len() {
                assert(cur[i] == b[i - pre.len()] && cur[j] == b[j - pre.len()]);
                assert(lex_lt(b[i - pre.len()], b[j - pre.len()]));
                assert(cur[i].len() == upto - 1 && cur[j].len() == upto - 1);
            } else {
                assert(cur[i] == pre[i] && cur[j] == b[j - pre.len()]);
                assert(cur[i].len() < upto - 1);
                assert(cur[j].len() == upto - 1);
            }
        }
        assert forall|k: int| 0 <= k < cur.len() implies (#[trigger] cur[k]).len() < upto by {
            if k < pre.len() {
                assert(cur[k] == pre[k]);
            } else {
                assert(cur[k] == b[k - pre.len()]);
            }
        }
    }
}

/// A start-bucket word of a layer below the bound stands in the
/// flattened words.
pub proof fn lemma_flat_start_contains(
    w: Seq<Seq<Seq<Seq<char>>>>,
    start: int,
    upto: int,
    l: int,
    j: int,
)
    requires
        0 <= l < upto <= w.len(),
        0 <= j < w[l][start].len(),
    ensures
        flat_start(w, start, upto).contains(w[l][start][j]),
    decreases upto,
{
    let pre = flat_start(w, start, upto - 1);
    if l == upto - 1 {
        assert(flat_start(w, start, upto)[pre.len() + j] == w[l][start][j]);
    } else {
        lemma_flat_start_contains(w, start, upto - 1, l, j);
        let k = choose|k: int| 0 <= k < pre.len() && pre[k] == w[l][start][j];
        assert(flat_start(w, start, upto)[k] == w[l][start][j]);
    }
}

/// A layer with a non-empty start bucket bounds the longest-word scan
/// from below.
pub proof fn lemma_longest_at_least(w: Seq<Seq<Seq<Seq<char>>>>, start: int, i: int, l: int)
    requires
        0 <= l < i <= w.len(),
        w[l][start].len() > 0,
    ensures
        longest_from(w, start, i) >= l,
    decreases i,
{
    if i - 1 > l && w[i - 1][start].len() == 0 {
        lemma_longest_at_least(w, start, i - 1, l);
    }
}

impl Producer {
    /// Builds a producer over the given grammar: the only length-zero
    /// word, the empty word, stands ready exactly when the grammar is
    /// nullable.
    pub fn new(grammar: Grammar) -> (p: Producer)
        requires
            grammar@.wf(),
        ensures
            p.wf(),
            p.grammar_model() == grammar@,
            p.emitted_words() == Seq::<Seq<char>>::empty(),
            p.explored() == 1,
            grammar@.null <==> p.buffered_words().contains(Seq::<char>::empty()),
    {
        let ghost gm = grammar@;
        let rl = grammar.rules.len();
        let mut layer: Vec<Vec<Terminal>> = Vec::new();
        let mut r: usize = 0;
        while r < rl
            invariant
                r <= rl,
                layer@.len() == r as int,
                forall|k: int| 0 <= k < r ==> (#[trigger] layer@[k])@.len() == 0,
            decreases rl - r,
        {
            let bucket: Vec<Terminal> = Vec::new();
            layer.push(bucket);
            r += 1;
        }
        if grammar.null {
            let empty_word: Terminal = Vec::new();
            let ghost l0 = layer@;
            layer[grammar.start].push(empty_word);
            proof {
                assert(layer@[gm.start]@ =~= l0[gm.start]@.push(empty_word));
                assert(forall|k: int| 0 <= k < rl && k != gm.start ==> layer@[k] == l0[k]);
            }
        }
        let mut words: Vec<Vec<Vec<Terminal>>> = Vec::new();
        words.push(layer);
        let p = Producer { grammar, words, next: 0, emitted: Ghost(Seq::<Seq<char>>::empty()) };
        proof {
            let w = layers_view(p.words);
            assert(w.len() == 1);
            assert(w[0] == layer_view(p.words@[0]));
            assert forall|rr: int| 0 <= rr < gm.rules.len() implies (#[trigger] w[0][rr]).len()
                == (if gm.null && rr == gm.start {
                1int
            } else {
                0int
            }) by {
                assert(w[0][rr] == bucket_view(p.words@[0]@[rr]));
            }
            assert forall|rr: int, i: int|
                0 <= rr < gm.rules.len() && 0 <= i < w[0][rr].len() implies (
            #[trigger] w[0][rr][i]).len() == 0 by {
                assert(w[0][rr] == bucket_view(p.words@[0]@[rr]));
            }
            assert(flat_start(w, gm.start, 0) =~= Seq::<Seq<char>>::empty());
            assert(w[0][gm.start].take(0) =~= Seq::<Seq<char>>::empty());
            assert(p.emitted@ =~= flat_start(w, gm.start, 0) + w[0][gm.start].take(0));
            // the only length-zero language word is the seeded empty word
            assert forall|l: int, rr: int, x: Seq<char>|
                0 <= l < w.len() && 0 <= rr < gm.rules.len() && x.len() == l && ((l > 0 && derives(
                    gm.rules,
                    rr,
                    x,
                )) || (l == 0 && rr == gm.start && gm.null)) implies #[trigger] w[l][rr].contains(
                x,
            ) by {
                assert(l == 0 && rr == gm.start && gm.null);
                assert(x =~= Seq::<char>::empty());
                assert(w[0][gm.start][0] == x);
            }
            assert(p.wf());
            assert(p.buffered_words() =~= flat_start(w, gm.start, 0) + w[0][gm.start]);
            if gm.null {
                assert(w[0][gm.start][0] == Seq::<char>::empty());
                assert(p.buffered_words()[0] == Seq::<char>::empty());
                assert(p.buffered_words().contains(Seq::<char>::empty()));
            } else {
                if p.buffered_words().contains(Seq::<char>::empty()) {
                    let j = choose|j: int|
                        0 <= j < p.buffered_words().len() && p.buffered_words()[j] == Seq::<
                            char,
                        >::empty();
                    assert(false);
                }
            }
        }
        p
    }

    /// The length of the longest word found so far at the start rule, or
    /// a large sentinel when none has been found.
    fn current_longest(&self) -> (l: usize)
        requires
            self.wf(),
        ensures
            l as int == longest_from(
                layers_view(self.words),
                self.grammar@.start,
                layers_view(self.words).len() as int,
            ),
    {
        let ghost w = layers_view(self.words);
        let ghost start = self.grammar@.start;
        let n = self.words.len();
        let mut i: usize = n;
        while i > 0
            invariant
                i <= n,
                n == self.words@.len(),
                w == layers_view(self.words),
                start == self.grammar@.start,
                self.wf(),
                longest_from(w, start, n as int) == longest_from(w, start, i as int),
            decreases i,
        {
            i -= 1;
            proof {
                assert(w[i as int] == layer_view(self.words@[i as int]));
                assert(w[i as int][start] == bucket_view(self.words@[i as int]@[start]));
            }
            if self.words[i][self.grammar.start].len() > 0 {
                return i;
            }
            proof {
                assert(longest_from(w, start, i + 1) == longest_from(w, start, i as int));
            }
        }
        1_000_000
    }

    /// Whether the stopping rule has fired: more layers have been
    /// explored than twice the longest word found plus one.
    fn finished(&self) -> (r: bool)
        requires
            self.wf(),
        ensures
            r == (layers_view(self.words).len() > 2 * longest_from(
                layers_view(self.words),
                self.grammar@.start,
                layers_view(self.words).len() as int,
            ) + 1),
    {
        let l = self.current_longest();
        let wl = self.words.len();
        if l > (usize::MAX - 1) / 2 {
            proof {
                assert(wl as int <= usize::MAX);
                assert(2 * (l as int) + 1 > usize::MAX);
            }
            false
        } else {
            wl > 2 * l + 1
        }
    }

    /// How many words the newest layer holds at the start rule.
    fn long_words_len(&self) -> (n: usize)
        requires
            self.wf(),
        ensures
            n as int == ({
                let w = layers_view(self.words);
                w[w.len() - 1][self.grammar@.start].len()
            }),
    {
        let ghost w = layers_view(self.words);
        let last = self.words.len() - 1;
        proof {
            assert(w[last as int] == layer_view(self.words@[last as int]));
            assert(w[last as int][self.grammar@.start] == bucket_view(
                self.words@[last as int]@[self.grammar@.start],
            ));
        }
        self.words[last][self.grammar.start].len()
    }
}

impl Producer {
    /// Finds every word of the next length: terminals of exactly that
    /// length, and every concatenation of two already-found words of
    /// rules paired by a product alternative.
    fn find_next_words(&mut self)
        requires
            old(self).wf(),
            old(self).next as int == ({
                let w = layers_view(old(self).words);
                w[w.len() - 1][old(self).grammar@.start].len()
            }),
        ensures
            final(self).wf(),
            final(self).grammar_model() == old(self).grammar_model(),
            final(self).emitted_words() == old(self).emitted_words(),
            layers_view(final(self).words).len() == layers_view(old(self).words).len() + 1,
            forall|l: int|
                0 <= l < layers_view(old(self).words).len() ==> #[trigger] layers_view(
                    final(self).words,
                )[l] == layers_view(old(self).words)[l],
            final(self).next == 0,
    {
        let ghost w0 = layers_view(self.words);
        let ghost gm = self.grammar@;
        let ghost rules = gm.rules;
        let ghost start = gm.start;
        let target = self.words.len();
        let rl = self.grammar.rules.len();
        let mut layer: Vec<Vec<Terminal>> = Vec::new();
        let mut r: usize = 0;
        while r < rl
            invariant
                r <= rl,
                *self == *old(self),
                self.wf(),
                w0 == layers_view(self.words),
                gm == self.grammar@,
                rules == gm.rules,
                start == gm.start,
                rl as int == rules.len(),
                target as int == w0.len(),
                target >= 1,
                layer@.len() == r as int,
                forall|k: int, i: int|
                    0 <= k < r && 0 <= i < bucket_view(layer@[k]).len() ==> {
                        let x = #[trigger] bucket_view(layer@[k])[i];
                        &&& x.len() == target as int
                        &&& derives(rules, k, x)
                    },
                forall|k: int| 0 <= k < r ==> sorted_bucket(bucket_view(#[trigger] layer@[k])),
                forall|k: int, x: Seq<char>|
                    0 <= k < r && x.len() == target as int && derives(rules, k, x)
                        ==> #[trigger] bucket_view(layer@[k]).contains(x),
            decreases rl - r,
        {
            let mut bucket: Vec<Terminal> = Vec::new();
            let rule_len = self.grammar.rules[r].len();
            proof {
                assert(crate::chomsky::cdef_view(self.grammar.rules@[r as int])
                    == rules[r as int]);
            }
            let mut d: usize = 0;
            while d < rule_len
                invariant
                    d <= rule_len,
                    r < rl,
                    *self == *old(self),
                    self.wf(),
                    w0 == layers_view(self.words),
                    gm == self.grammar@,
                    rules == gm.rules,
                    start == gm.start,
                    rl as int == rules.len(),
                    target as int == w0.len(),
                    target >= 1,
                    rule_len as int == rules[r as int].len(),
                    sorted_bucket(bucket_view(bucket)),
                    forall|i: int|
                        0 <= i < bucket_view(bucket).len() ==> {
                            let x = #[trigger] bucket_view(bucket)[i];
                            &&& x.len() == target as int
                            &&& derives(rules, r as int, x)
                        },
                    forall|d2: int|
                        0 <= d2 < d && (#[trigger] rules[r as int][d2]) is Term
                            && rules[r as int][d2]->Term_0.len() == target as int
                            ==> bucket_view(bucket).contains(rules[r as int][d2]->Term_0),
                decreases rule_len - d,
            {
                proof {
                    assert(rules[r as int][d as int] == self.grammar.rules@[r as int]@[d as int]@);
                }
                match &self.grammar.rules[r][d] {
                    Definition::Term(t) => {
                        if t.len() == target {
                            proof {
                                assert(rules[r as int][d as int] == DefModel::Term(t@));
                                assert(derives_k(rules, r as int, t@, 1));
                            }
                            let ghost b0 = bucket_view(bucket);
                            sorted_insert_word(&mut bucket, t.clone());
                            proof {
                                assert forall|i: int|
                                    0 <= i < bucket_view(bucket).len() implies {
                                    let x = #[trigger] bucket_view(bucket)[i];
                                    &&& x.len() == target as int
                                    &&& derives(rules, r as int, x)
                                } by {
                                    assert(bucket_view(bucket).contains(bucket_view(bucket)[i]));
                                }
                                assert(bucket_view(bucket).contains(
                                    rules[r as int][d as int]->Term_0,
                                ));
                            }
                        }
                    },
                    Definition::Product(_, _) => {},
                }
                d += 1;
            }
            // combine left parts of every split with matching right parts
            let mut l1: usize = 1;
            while l1 < target
                invariant
                    1 <= l1 <= target,
                    r < rl,
                    *self == *old(self),
                    self.wf(),
                    w0 == layers_view(self.words),
                    gm == self.grammar@,
                    rules == gm.rules,
                    start == gm.start,
                    rl as int == rules.len(),
                    target as int == w0.len(),
                    target >= 1,
                    sorted_bucket(bucket_view(bucket)),
                    forall|i: int|
                        0 <= i < bucket_view(bucket).len() ==> {
                            let x = #[trigger] bucket_view(bucket)[i];
                            &&& x.len() == target as int
                            &&& derives(rules, r as int, x)
                        },
                    forall|d2: int|
                        0 <= d2 < rules[r as int].len() && (#[trigger] rules[r as int][d2]) is Term
                            && rules[r as int][d2]->Term_0.len() == target as int
                            ==> bucket_view(bucket).contains(rules[r as int][d2]->Term_0),
                    forall|l1p: int, d2: int, ja: int, jb: int|
                        #![trigger bucket_view(bucket).contains(pair_word(w0, l1p, target - l1p, rules[r as int][d2]->Product_0, rules[r as int][d2]->Product_1, ja, jb))]
                        1 <= l1p < l1 && 0 <= d2 < rules[r as int].len()
                            && rules[r as int][d2] is Product && 0 <= ja
                            < w0[l1p][rules[r as int][d2]->Product_0].len() && 0 <= jb
                            < w0[target - l1p][rules[r as int][d2]->Product_1].len()
                            ==> bucket_view(bucket).contains(
                            pair_word(
                                w0,
                                l1p,
                                target - l1p,
                                rules[r as int][d2]->Product_0,
                                rules[r as int][d2]->Product_1,
                                ja,
                                jb,
                            ),
                        ),
                decreases target - l1,
            {
                let l2 = target - l1;
                let rule_len2 = self.grammar.rules[r].len();
                proof {
                    assert(crate::chomsky::cdef_view(self.grammar.rules@[r as int])
                        == rules[r as int]);
                }
                let mut d: usize = 0;
                while d < rule_len2
                    invariant
                        d <= rule_len2,
                        1 <= l1 < target,
                        l2 == target - l1,
                        r < rl,
                        *self == *old(self),
                        self.wf(),
                        w0 == layers_view(self.words),
                        gm == self.grammar@,
                        rules == gm.rules,
                        start == gm.start,
                        rl as int == rules.len(),
                        target as int == w0.len(),
                        rule_len2 as int == rules[r as int].len(),
                        sorted_bucket(bucket_view(bucket)),
                        forall|i: int|
                            0 <= i < bucket_view(bucket).len() ==> {
                                let x = #[trigger] bucket_view(bucket)[i];
                                &&& x.len() == target as int
                                &&& derives(rules, r as int, x)
                            },
                        forall|d2: int|
                            0 <= d2 < rules[r as int].len() && (#[trigger] rules[r as int][d2]) is Term
                                && rules[r as int][d2]->Term_0.len() == target as int
                                ==> bucket_view(bucket).contains(rules[r as int][d2]->Term_0),
                        forall|l1p: int, d2: int, ja: int, jb: int|
                            #![trigger bucket_view(bucket).contains(pair_word(w0, l1p, target - l1p, rules[r as int][d2]->Product_0, rules[r as int][d2]->Product_1, ja, jb))]
                            1 <= l1p < l1 && 0 <= d2 < rules[r as int].len()
                                && rules[r as int][d2] is Product && 0 <= ja
                                < w0[l1p][rules[r as int][d2]->Product_0].len() && 0 <= jb
                                < w0[target - l1p][rules[r as int][d2]->Product_1].len()
                                ==> bucket_view(bucket).contains(
                                pair_word(
                                    w0,
                                    l1p,
                                    target - l1p,
                                    rules[r as int][d2]->Product_0,
                                    rules[r as int][d2]->Product_1,
                                    ja,
                                    jb,
                                ),
                            ),
                        forall|d2: int, ja: int, jb: int|
                            #![trigger bucket_view(bucket).contains(pair_word(w0, l1 as int, l2 as int, rules[r as int][d2]->Product_0, rules[r as int][d2]->Product_1, ja, jb))]
                            0 <= d2 < d && rules[r as int][d2] is Product && 0 <= ja
                                < w0[l1 as int][rules[r as int][d2]->Product_0].len() && 0 <= jb
                                < w0[l2 as int][rules[r as int][d2]->Product_1].len()
                                ==> bucket_view(bucket).contains(
                                pair_word(
                                    w0,
                                    l1 as int,
                                    l2 as int,
                                    rules[r as int][d2]->Product_0,
                                    rules[r as int][d2]->Product_1,
                                    ja,
                                    jb,
                                ),
                            ),
                    decreases rule_len2 - d,
                {
                    proof {
                        assert(rules[r as int][d as int]
                            == self.grammar.rules@[r as int]@[d as int]@);
                    }
                    match &self.grammar.rules[r][d] {
                        Definition::Term(_) => {},
                        Definition::Product(na, nb) => {
                            let a = *na;
                            let b = *nb;
                            proof {
                                assert(rules[r as int][d as int] == DefModel::Product(
                                    a as int,
                                    b as int,
                                ));
                                assert(gm.wf());
                                assert((a as int) < rules.len() && (b as int) < rules.len());
                                assert(w0[l1 as int] == layer_view(self.words@[l1 as int]));
                                assert(w0[l2 as int] == layer_view(self.words@[l2 as int]));
                                assert(w0[l1 as int][a as int] == bucket_view(
                                    self.words@[l1 as int]@[a as int],
                                ));
                                assert(w0[l2 as int][b as int] == bucket_view(
                                    self.words@[l2 as int]@[b as int],
                                ));
                            }
                            let na_len = self.words[l1][a].len();
                            let mut ia: usize = 0;
                            while ia < na_len
                                invariant
                                    ia <= na_len,
                                    1 <= l1 < target,
                                    l2 == target - l1,
                                    r < rl,
                                    a < rl,
                                    b < rl,
                                    0 <= (d as int) < rules[r as int].len(),
                                    rules[r as int][d as int] == DefModel::Product(
                                        a as int,
                                        b as int,
                                    ),
                                    *self == *old(self),
                                    self.wf(),
                                    w0 == layers_view(self.words),
                                    gm == self.grammar@,
                                    rules == gm.rules,
                                    start == gm.start,
                                    rl as int == rules.len(),
                                    target as int == w0.len(),
                                    na_len as int == w0[l1 as int][a as int].len(),
                                    rule_len2 as int == rules[r as int].len(),
                                    sorted_bucket(bucket_view(bucket)),
                                    forall|i: int|
                                        0 <= i < bucket_view(bucket).len() ==> {
                                            let x = #[trigger] bucket_view(bucket)[i];
                                            &&& x.len() == target as int
                                            &&& derives(rules, r as int, x)
                                        },
                                    forall|d2: int|
                                        0 <= d2 < rules[r as int].len() && (#[trigger] rules[r as int][d2]) is Term
                                            && rules[r as int][d2]->Term_0.len() == target as int
                                            ==> bucket_view(bucket).contains(rules[r as int][d2]->Term_0),
                                    forall|l1p: int, d2: int, ja: int, jb: int|
                                        #![trigger bucket_view(bucket).contains(pair_word(w0, l1p, target - l1p, rules[r as int][d2]->Product_0, rules[r as int][d2]->Product_1, ja, jb))]
                                        1 <= l1p < l1 && 0 <= d2 < rules[r as int].len()
                                            && rules[r as int][d2] is Product && 0 <= ja
                                            < w0[l1p][rules[r as int][d2]->Product_0].len() && 0 <= jb
                                            < w0[target - l1p][rules[r as int][d2]->Product_1].len()
                                            ==> bucket_view(bucket).contains(
                                            pair_word(
                                                w0,
                                                l1p,
                                                target - l1p,
                                                rules[r as int][d2]->Product_0,
                                                rules[r as int][d2]->Product_1,
                                                ja,
                                                jb,
                                            ),
                                        ),
                                    forall|d2: int, ja: int, jb: int|
                                        #![trigger bucket_view(bucket).contains(pair_word(w0, l1 as int, l2 as int, rules[r as int][d2]->Product_0, rules[r as int][d2]->Product_1, ja, jb))]
                                        0 <= d2 < d && rules[r as int][d2] is Product && 0 <= ja
                                            < w0[l1 as int][rules[r as int][d2]->Product_0].len() && 0 <= jb
                                            < w0[l2 as int][rules[r as int][d2]->Product_1].len()
                                            ==> bucket_view(bucket).contains(
                                            pair_word(
                                                w0,
                                                l1 as int,
                                                l2 as int,
                                                rules[r as int][d2]->Product_0,
                                                rules[r as int][d2]->Product_1,
                                                ja,
                                                jb,
                                            ),
                                        ),
                                    forall|ja: int, jb: int|
                                        #![trigger bucket_view(bucket).contains(pair_word(w0, l1 as int, l2 as int, a as int, b as int, ja, jb))]
                                        0 <= ja < ia && 0 <= jb < w0[l2 as int][b as int].len()
                                            ==> bucket_view(bucket).contains(
                                            pair_word(w0, l1 as int, l2 as int, a as int, b as int, ja, jb),
                                        ),
                                decreases na_len - ia,
                            {
                                proof {
                                    assert(w0[l2 as int] == layer_view(self.words@[l2 as int]));
                                    assert(w0[l2 as int][b as int] == bucket_view(
                                        self.words@[l2 as int]@[b as int],
                                    ));
                                }
                                let nb_len = self.words[l2][b].len();
                                let mut ib: usize = 0;
                                while ib < nb_len
                                    invariant
                                        ib <= nb_len,
                                        ia < na_len,
                                        1 <= l1 < target,
                                        l2 == target - l1,
                                        r < rl,
                                        a < rl,
                                        b < rl,
                                        0 <= (d as int) < rules[r as int].len(),
                                        rules[r as int][d as int] == DefModel::Product(
                                            a as int,
                                            b as int,
                                        ),
                                        *self == *old(self),
                                        self.wf(),
                                        w0 == layers_view(self.words),
                                        gm == self.grammar@,
                                        rules == gm.rules,
                                        start == gm.start,
                                        rl as int == rules.len(),
                                        target as int == w0.len(),
                                        na_len as int == w0[l1 as int][a as int].len(),
                                        nb_len as int == w0[l2 as int][b as int].len(),
                                        rule_len2 as int == rules[r as int].len(),
                                        sorted_bucket(bucket_view(bucket)),
                                        forall|i: int|
                                            0 <= i < bucket_view(bucket).len() ==> {
                                                let x = #[trigger] bucket_view(bucket)[i];
                                                &&& x.len() == target as int
                                                &&& derives(rules, r as int, x)
                                            },
                                        forall|d2: int|
                                            0 <= d2 < rules[r as int].len() && (#[trigger] rules[r as int][d2]) is Term
                                                && rules[r as int][d2]->Term_0.len() == target as int
                                                ==> bucket_view(bucket).contains(rules[r as int][d2]->Term_0),
                                        forall|l1p: int, d2: int, ja: int, jb: int|
                                            #![trigger bucket_view(bucket).contains(pair_word(w0, l1p, target - l1p, rules[r as int][d2]->Product_0, rules[r as int][d2]->Product_1, ja, jb))]
                                            1 <= l1p < l1 && 0 <= d2 < rules[r as int].len()
                                                && rules[r as int][d2] is Product && 0 <= ja
                                                < w0[l1p][rules[r as int][d2]->Product_0].len() && 0 <= jb
                                                < w0[target - l1p][rules[r as int][d2]->Product_1].len()
                                                ==> bucket_view(bucket).contains(
                                                pair_word(
                                                    w0,
                                                    l1p,
                                                    target - l1p,
                                                    rules[r as int][d2]->Product_0,
                                                    rules[r as int][d2]->Product_1,
                                                    ja,
                                                    jb,
                                                ),
                                            ),
                                        forall|d2: int, ja: int, jb: int|
                                            #![trigger bucket_view(bucket).contains(pair_word(w0, l1 as int, l2 as int, rules[r as int][d2]->Product_0, rules[r as int][d2]->Product_1, ja, jb))]
                                            0 <= d2 < d && rules[r as int][d2] is Product && 0 <= ja
                                                < w0[l1 as int][rules[r as int][d2]->Product_0].len() && 0 <= jb
                                                < w0[l2 as int][rules[r as int][d2]->Product_1].len()
                                                ==> bucket_view(bucket).contains(
                                                pair_word(
                                                    w0,
                                                    l1 as int,
                                                    l2 as int,
                                                    rules[r as int][d2]->Product_0,
                                                    rules[r as int][d2]->Product_1,
                                                    ja,
                                                    jb,
                                                ),
                                            ),
                                        forall|ja: int, jb: int|
                                            #![trigger bucket_view(bucket).contains(pair_word(w0, l1 as int, l2 as int, a as int, b as int, ja, jb))]
                                            0 <= ja < ia && 0 <= jb < w0[l2 as int][b as int].len()
                                                ==> bucket_view(bucket).contains(
                                                pair_word(w0, l1 as int, l2 as int, a as int, b as int, ja, jb),
                                            ),
                                        forall|jb: int|
                                            0 <= jb < ib ==> #[trigger] bucket_view(bucket).contains(
                                                pair_word(w0, l1 as int, l2 as int, a as int, b as int, ia as int, jb),
                                            ),
                                    decreases nb_len - ib,
                                {
                                    proof {
                                        assert(w0[l1 as int][a as int] == bucket_view(
                                            self.words@[l1 as int]@[a as int],
                                        ));
                                        assert(w0[l2 as int][b as int] == bucket_view(
                                            self.words@[l2 as int]@[b as int],
                                        ));
                                        assert(w0[l1 as int][a as int][ia as int]
                                            == self.words@[l1 as int]@[a as int]@[ia as int]@);
                                        assert(w0[l2 as int][b as int][ib as int]
                                            == self.words@[l2 as int]@[b as int]@[ib as int]@);
                                    }
                                    let wa = &self.words[l1][a][ia];
                                    let wb = &self.words[l2][b][ib];
                                    let joined = concat_words(wa, wb);
                                    proof {
                                        let va = w0[l1 as int][a as int][ia as int];
                                        let vb = w0[l2 as int][b as int][ib as int];
                                        assert(va.len() == l1 as int);
                                        assert(vb.len() == l2 as int);
                                        assert(joined@ == va + vb);
                                        assert(joined@.len() == target as int);
                                        assert(derives(rules, a as int, va));
                                        assert(derives(rules, b as int, vb));
                                        assert(joined@.take(l1 as int) =~= va);
                                        assert(joined@.skip(l1 as int) =~= vb);
                                        lemma_derives_unfold(rules, r as int, joined@);
                                        assert(1 <= (l1 as int) < joined@.len());
                                        assert(derives(rules, r as int, joined@));
                                    }
                                    let ghost b0 = bucket_view(bucket);
                                    let ghost jv = joined@;
                                    sorted_insert_word(&mut bucket, joined);
                                    proof {
                                        assert forall|i: int|
                                            0 <= i < bucket_view(bucket).len() implies {
                                            let x = #[trigger] bucket_view(bucket)[i];
                                            &&& x.len() == target as int
                                            &&& derives(rules, r as int, x)
                                        } by {
                                            assert(bucket_view(bucket).contains(bucket_view(
                                                bucket,
                                            )[i]));
                                        }
                                        assert(bucket_view(bucket).contains(jv));
                                        assert(jv == pair_word(
                                            w0,
                                            l1 as int,
                                            l2 as int,
                                            a as int,
                                            b as int,
                                            ia as int,
                                            ib as int,
                                        ));
                                    }
                                    ib += 1;
                                }
                                ia += 1;
                            }
                        },
                    }
                    d += 1;
                }
                l1 += 1;
            }
            proof {
                // every derivable word of the target length was collected
                assert forall|x: Seq<char>|
                    x.len() == target as int && derives(rules, r as int, x)
                        implies bucket_view(bucket).contains(x) by {
                    lemma_derives_unfold(rules, r as int, x);
                    let d = choose|d: int|
                        0 <= d < rules[r as int].len() && ({
                            let def = #[trigger] rules[r as int][d];
                            ||| (def is Term && x == def->Term_0)
                            ||| (def is Product && exists|i: int|
                                1 <= i < x.len() && derives(
                                    rules,
                                    def->Product_0,
                                    #[trigger] x.take(i),
                                ) && derives(rules, def->Product_1, x.skip(i)))
                        });
                    let def = rules[r as int][d];
                    if def is Term && x == def->Term_0 {
                        assert(def->Term_0.len() == target as int);
                        assert(bucket_view(bucket).contains(def->Term_0));
                    } else {
                        let i = choose|i: int|
                            1 <= i < x.len() && derives(rules, def->Product_0, #[trigger] x.take(i))
                                && derives(rules, def->Product_1, x.skip(i));
                        let aa = def->Product_0;
                        let bb = def->Product_1;
                        let wa = x.take(i);
                        let wb = x.skip(i);
                        assert(wa.len() == i && wb.len() == target - i);
                        assert(gm.wf());
                        assert(0 <= aa < rules.len() && 0 <= bb < rules.len());
                        assert(w0[i][aa].contains(wa));
                        assert(w0[target - i][bb].contains(wb));
                        let ja = choose|ja: int|
                            0 <= ja < w0[i][aa].len() && #[trigger] w0[i][aa][ja] == wa;
                        let jb = choose|jb: int|
                            0 <= jb < w0[target - i][bb].len() && #[trigger] w0[target - i][bb][jb]
                                == wb;
                        assert(bucket_view(bucket).contains(
                            pair_word(w0, i, target - i, aa, bb, ja, jb),
                        ));
                        assert(pair_word(w0, i, target - i, aa, bb, ja, jb) =~= x);
                    }
                }
            }
            layer.push(bucket);
            r += 1;
        }
        let ghost lv = layer_view(layer);
        self.words.push(layer);
        self.next = 0;
        proof {
            let w1 = layers_view(self.words);
            assert(w1 =~= w0.push(lv));
            lemma_flat_start_push(w0, lv, start, w0.len() as int);
            assert(flat_start(w1, start, w1.len() - 1) == flat_start(w0, start, w0.len() as int));
            assert(flat_start(w0, start, w0.len() as int) == flat_start(w0, start, w0.len() - 1)
                + w0[w0.len() - 1][start]);
            assert(old(self).emitted@ == flat_start(w0, start, w0.len() - 1) + w0[w0.len()
                - 1][start].take(w0[w0.len() - 1][start].len() as int));
            assert(w0[w0.len() - 1][start].take(w0[w0.len() - 1][start].len() as int) =~= w0[w0.len()
                - 1][start]);
            assert(w1[w1.len() - 1][start].take(0) =~= Seq::<Seq<char>>::empty());
            assert(self.emitted@ =~= flat_start(w1, start, w1.len() - 1) + w1[w1.len()
                - 1][start].take(0));
            assert forall|l: int, rr: int, i: int|
                0 <= l < w1.len() && 0 <= rr < rules.len() && 0 <= i < w1[l][rr].len() implies {
                let x = #[trigger] w1[l][rr][i];
                &&& x.len() == l
                &&& (x.len() > 0 ==> derives(rules, rr, x))
                &&& (x.len() == 0 ==> rr == start && gm.null)
            } by {
                if l < w0.len() {
                    assert(w1[l] == w0[l]);
                } else {
                    assert(w1[l] == lv);
                    assert(lv[rr] == bucket_view(layer@[rr]));
                    assert(lv[rr][i].len() == w0.len() as int);
                }
            }
            assert forall|l: int, rr: int, x: Seq<char>|
                0 <= l < w1.len() && 0 <= rr < rules.len() && x.len() == l && ((l > 0 && derives(
                    rules,
                    rr,
                    x,
                )) || (l == 0 && rr == start && gm.null)) implies #[trigger] w1[l][rr].contains(
                x,
            ) by {
                if l < w0.len() {
                    assert(w1[l] == w0[l]);
                    assert(w0[l][rr].contains(x));
                } else {
                    assert(w1[l] == lv);
                    assert(lv[rr] == bucket_view(layer@[rr]));
                    assert(l == target as int && l > 0);
                    assert(bucket_view(layer@[rr]).contains(x));
                }
            }
            assert(self.wf());
        }
    }
}

/// Copies one word.
fn copy_word(t: &Terminal) -> (out: Terminal)
    ensures
        out@ == t@,
{
    let mut out: Terminal = Vec::new();
    let mut i: usize = 0;
    while i < t.len()
        invariant
            i <= t.len(),
            out@ == t@.take(i as int),
        decreases t.len() - i,
    {
        out.push(t[i]);
        proof {
            assert(t@.take(i as int).push(t@[i as int]) =~= t@.take(i + 1));
        }
        i += 1;
    }
    proof {
        assert(t@.take(t@.len() as int) =~= t@);
    }
    out
}

impl Producer {
    /// How many length layers have been explored.
    pub closed spec fn explored(&self) -> int {
        layers_view(self.words).len() as int
    }

    /// The stopping rule has fired and every buffered word has been
    /// handed out: more layers were explored than twice the longest
    /// word found plus one, and the newest layer holds no unread word.
    pub closed spec fn drained(&self) -> bool {
        let w = layers_view(self.words);
        let start = self.grammar@.start;
        &&& w.len() > 2 * longest_from(w, start, w.len() as int) + 1
        &&& self.next as int == w[w.len() - 1][start].len()
    }

    /// How far the producer still is from its stopping rule.
    pub closed spec fn stall_measure(&self) -> int {
        let w = layers_view(self.words);
        let start = self.grammar@.start;
        let longest = longest_from(w, start, w.len() as int);
        if w.len() > 2 * longest + 1 || self.next < w[w.len() - 1][start].len() {
            0
        } else {
            2 * longest + 2 - w.len()
        }
    }

    /// The next word of the language, or nothing once the stopping rule
    /// has fired: layers are explored until the newest one holds an
    /// unread start-rule word, or until more layers have been explored
    /// than twice the length of the longest word found plus one.
    ///
    /// A word handed out belongs to the language (the empty word only
    /// under `null`), and every language word that comes before it in
    /// the word order has been handed out already: the words arrive in
    /// order with no gap and no repetition. Nothing is handed out only
    /// once the producer is drained, and by then every language word
    /// shorter than the number of explored layers is out.
    pub fn next(&mut self) -> (r: Option<Terminal>)
        requires
            old(self).wf(),
        ensures
            final(self).wf(),
            final(self).grammar_model() == old(self).grammar_model(),
            match r {
                Option::Some(word) => {
                    &&& final(self).emitted_words() == old(self).emitted_words().push(word@)
                    &&& lang_word(final(self).grammar_model(), word@)
                    &&& forall|x: Seq<char>|
                        lang_word(final(self).grammar_model(), x) && word_lt(x, word@)
                            ==> #[trigger] final(self).emitted_words().contains(x)
                },
                Option::None => {
                    &&& final(self).emitted_words() == old(self).emitted_words()
                    &&& final(self).drained()
                    &&& covered_up_to(
                        final(self).grammar_model(),
                        final(self).emitted_words(),
                        final(self).explored(),
                    )
                },
            },
            final(self).explored() >= 1,
            final(self).explored() >= old(self).explored(),
            old(self).drained() ==> r is None,
    {
        let ghost gm = self.grammar@;
        let mut done = false;
        while !done
            invariant
                self.wf(),
                gm == self.grammar@,
                self.emitted@ == old(self).emitted@,
                self.explored() >= old(self).explored(),
                old(self).drained() ==> layers_view(self.words) == layers_view(old(self).words)
                    && self.next == old(self).next && self.grammar == old(self).grammar,
                done ==> ({
                    let w = layers_view(self.words);
                    w.len() > 2 * longest_from(w, gm.start, w.len() as int) + 1 || (
                    self.next as int) < w[w.len() - 1][gm.start].len()
                }),
            decreases (if done {
                0int
            } else {
                1 + self.stall_measure()
            }),
        {
            let fin = self.finished();
            let ll = self.long_words_len();
            if !fin && self.next >= ll {
                proof {
                    let w = layers_view(self.words);
                    assert(self.next as int == w[w.len() - 1][gm.start].len());
                }
                let ghost w0 = layers_view(self.words);
                let ghost m0 = self.stall_measure();
                self.find_next_words();
                proof {
                    let w1 = layers_view(self.words);
                    let start = gm.start;
                    if w1[w1.len() - 1][start].len() > self.next as int {
                        assert(self.stall_measure() == 0);
                    } else {
                        lemma_longest_frame(w1, w0, start, w0.len() as int);
                        assert(longest_from(w1, start, w1.len() as int) == longest_from(
                            w0,
                            start,
                            w0.len() as int,
                        ));
                        assert(m0 >= 1);
                        assert(self.stall_measure() < m0);
                    }
                }
            } else {
                done = true;
            }
        }
        let ll = self.long_words_len();
        if self.next < ll {
            let ghost w = layers_view(self.words);
            let ghost start = gm.start;
            let last = self.words.len() - 1;
            proof {
                assert(w[last as int] == layer_view(self.words@[last as int]));
                assert(w[last as int][start] == bucket_view(self.words@[last as int]@[start]));
                assert(w[last as int][start][self.next as int]
                    == self.words@[last as int]@[start]@[self.next as int]@);
            }
            let word = copy_word(&self.words[last][self.grammar.start][self.next]);
            let ghost old_emitted = self.emitted@;
            let ghost old_next = self.next as int;
            self.next = self.next + 1;
            proof {
                self.emitted = Ghost(old_emitted.push(word@));
                assert(w[last as int][start].take(old_next).push(w[last as int][start][old_next])
                    =~= w[last as int][start].take(old_next + 1));
                assert(self.emitted@ =~= flat_start(w, start, w.len() - 1) + w[w.len()
                    - 1][start].take(self.next as int));
                // every language word before this one is already out
                let wv = w[last as int][start][old_next];
                assert(wv.len() == last as int);
                assert forall|x: Seq<char>|
                    lang_word(gm, x) && word_lt(x, wv) implies #[trigger] self.emitted@.contains(
                    x,
                ) by {
                    if x.len() < last as int {
                        assert(w[x.len() as int][start].contains(x));
                        let j = choose|j: int|
                            0 <= j < w[x.len() as int][start].len() && #[trigger] w[x.len() as int][
                                start][j] == x;
                        lemma_flat_start_contains(w, start, last as int, x.len() as int, j);
                        let k = choose|k: int|
                            0 <= k < flat_start(w, start, last as int).len() && #[trigger] flat_start(
                                w,
                                start,
                                last as int,
                            )[k] == x;
                        assert(self.emitted@[k] == x);
                    } else {
                        assert(x.len() == last as int);
                        assert(lex_lt(x, wv));
                        assert(w[last as int][start].contains(x));
                        let j = choose|j: int|
                            0 <= j < w[last as int][start].len() && #[trigger] w[last as int][
                                start][j] == x;
                        if j > old_next {
                            assert(lex_lt(w[last as int][start][old_next], w[last as int][
                                start][j]));
                            lemma_lex_lt_asym(x, wv);
                            assert(false);
                        }
                        if j == old_next {
                            lemma_lex_lt_asym(x, wv);
                            assert(false);
                        }
                        assert(j < old_next);
                        let pre = flat_start(w, start, last as int);
                        assert(self.emitted@[pre.len() + j] == w[last as int][start].take(
                            old_next + 1,
                        )[j]);
                        assert(self.emitted@[pre.len() + j] == x);
                    }
                }
            }
            Option::Some(word)
        } else {
            proof {
                let w = layers_view(self.words);
                let start = gm.start;
                let last = w.len() - 1;
                assert(self.next as int == w[last][start].len());
                assert(self.drained());
                // the whole buffer has been handed out
                assert(w[last][start].take(self.next as int) =~= w[last][start]);
                assert(self.emitted@ == flat_start(w, start, last) + w[last][start]);
                assert(self.emitted@ =~= flat_start(w, start, w.len() as int));
                assert forall|x: Seq<char>|
                    lang_word(gm, x) && x.len() < self.explored() implies #[trigger] self.emitted@
                    .contains(x) by {
                    assert(w[x.len() as int][start].contains(x));
                    let j = choose|j: int|
                        0 <= j < w[x.len() as int][start].len() && #[trigger] w[x.len() as int][
                            start][j] == x;
                    lemma_flat_start_contains(w, start, w.len() as int, x.len() as int, j);
                }
                // when nothing was found, no layer holds a word, so the
                // scan answered the sentinel and the rule fired past it
                if self.emitted@.len() == 0 {
                    assert forall|l: int| 0 <= l < w.len() implies (#[trigger] w[l][start]).len()
                        == 0 by {
                        if w[l][start].len() > 0 {
                            lemma_flat_start_contains(w, start, w.len() as int, l, 0);
                            let k = choose|k: int|
                                0 <= k < flat_start(w, start, w.len() as int).len()
                                    && #[trigger] flat_start(w, start, w.len() as int)[k] == w[l][
                                    start][0];
                            assert(self.emitted@.len() > 0);
                        }
                    }
                    lemma_longest_sentinel(w, start, w.len() as int);
                    assert(2 * no_word_sentinel() + 1 < self.explored());
                }
                // the bound lies beyond the horizon of everything out
                assert forall|i: int| 0 <= i < self.emitted@.len() implies 2 * (
                #[trigger] self.emitted@[i]).len() + 1 < self.explored() by {
                    lemma_flat_elem(w, start, w.len() as int, i);
                    let (l, k) = choose|l: int, k: int|
                        0 <= l < w.len() && 0 <= k < w[l][start].len() && flat_start(
                            w,
                            start,
                            w.len() as int,
                        )[i] == w[l][start][k];
                    assert(self.emitted@[i].len() == l);
                    lemma_longest_at_least(w, start, w.len() as int, l);
                }
            }
            Option::None
        }
    }

    /// Every start-rule word found so far, read or not, in the word
    /// order: every language word shorter than the number of explored
    /// layers is among them.
    pub fn all_buffered_words(&self) -> (out: Vec<Terminal>)
        requires
            self.wf(),
        ensures
            bucket_view(out) == self.buffered_words(),
            sorted_words(bucket_view(out)),
            forall|x: Seq<char>|
                lang_word(self.grammar_model(), x) && x.len() < self.explored()
                    ==> #[trigger] bucket_view(out).contains(x),
            forall|i: int|
                0 <= i < bucket_view(out).len() ==> {
                    let x = #[trigger] bucket_view(out)[i];
                    &&& (x.len() > 0 ==> derives(
                        self.grammar_model().rules,
                        self.grammar_model().start,
                        x,
                    ))
                    &&& (x.len() == 0 ==> self.grammar_model().null)
                },
    {
        let ghost w = layers_view(self.words);
        let ghost gm = self.grammar@;
        let ghost start = gm.start;
        let n = self.words.len();
        let mut out: Vec<Terminal> = Vec::new();
        proof {
            assert(bucket_view(out) =~= flat_start(w, start, 0));
        }
        let mut l: usize = 0;
        while l < n
            invariant
                l <= n,
                n == self.words@.len(),
                self.wf(),
                w == layers_view(self.words),
                gm == self.grammar@,
                start == gm.start,
                bucket_view(out) == flat_start(w, start, l as int),
            decreases n - l,
        {
            proof {
                assert(w[l as int] == layer_view(self.words@[l as int]));
                assert(w[l as int][start] == bucket_view(self.words@[l as int]@[start]));
            }
            let blen = self.words[l][self.grammar.start].len();
            let mut i: usize = 0;
            while i < blen
                invariant
                    i <= blen,
                    l < n,
                    n == self.words@.len(),
                    self.wf(),
                    w == layers_view(self.words),
                    gm == self.grammar@,
                    start == gm.start,
                    blen as int == w[l as int][start].len(),
                    bucket_view(out) == flat_start(w, start, l as int) + w[l as int][start].take(
                        i as int,
                    ),
                decreases blen - i,
            {
                proof {
                    assert(w[l as int] == layer_view(self.words@[l as int]));
                    assert(w[l as int][start] == bucket_view(self.words@[l as int]@[start]));
                    assert(w[l as int][start][i as int]
                        == self.words@[l as int]@[start]@[i as int]@);
                }
                let word = copy_word(&self.words[l][self.grammar.start][i]);
                let ghost b_prev = bucket_view(out);
                out.push(word);
                proof {
                    assert(bucket_view(out) =~= b_prev.push(w[l as int][start][i as int]));
                    assert(w[l as int][start].take(i as int).push(w[l as int][start][i as int])
                        =~= w[l as int][start].take(i + 1));
                    assert(bucket_view(out) =~= flat_start(w, start, l as int) + w[l as int][
                        start].take(i + 1));
                }
                i += 1;
            }
            proof {
                assert(w[l as int][start].take(blen as int) =~= w[l as int][start]);
            }
            l += 1;
        }
        proof {
            lemma_flat_sorted(w, start, gm.rules.len() as int, w.len() as int);
            assert forall|x: Seq<char>|
                lang_word(gm, x) && x.len() < self.explored() implies #[trigger] bucket_view(
                out,
            ).contains(x) by {
                assert(w[x.len() as int][start].contains(x));
                let j = choose|j: int|
                    0 <= j < w[x.len() as int][start].len() && #[trigger] w[x.len() as int][
                        start][j] == x;
                lemma_flat_start_contains(w, start, w.len() as int, x.len() as int, j);
            }
            assert forall|i: int|
                0 <= i < bucket_view(out).len() implies {
                let x = #[trigger] bucket_view(out)[i];
                &&& (x.len() > 0 ==> derives(gm.rules, start, x))
                &&& (x.len() == 0 ==> gm.null)
            } by {
                lemma_flat_elem(w, start, w.len() as int, i);
                let l2 = choose|l2: int, k: int|
                    0 <= l2 < w.len() && 0 <= k < w[l2][start].len() && flat_start(
                        w,
                        start,
                        w.len() as int,
                    )[i] == w[l2][start][k];
            }
        }
        out
    }
}

/// Every flattened word stands in some layer's start bucket.
pub proof fn lemma_flat_elem(w: Seq<Seq<Seq<Seq<char>>>>, start: int, upto: int, i: int)
    requires
        0 <= upto <= w.len(),
        0 <= i < flat_start(w, start, upto).len(),
    ensures
        exists|l: int, k: int|
            0 <= l < upto && 0 <= k < w[l][start].len() && flat_start(w, start, upto)[i]
                == w[l][start][k],
    decreases upto,
{
    if upto > 0 {
        let pre = flat_start(w, start, upto - 1);
        if i < pre.len() {
            lemma_flat_elem(w, start, upto - 1, i);
            let (l, k) = choose|l: int, k: int|
                0 <= l < upto - 1 && 0 <= k < w[l][start].len() && pre[i] == w[l][start][k];
            assert(flat_start(w, start, upto)[i] == w[l][start][k]);
        } else {
            assert(flat_start(w, start, upto)[i] == w[upto - 1][start][i - pre.len()]);
        }
    }
}

/// The words a producer hands out never decrease in length and never
/// repeat: the emitted sequence is strictly increasing in the word
/// order, so every output is at least as long as every earlier one and
/// different from all of them.
pub proof fn lemma_outputs_monotone(p: &Producer)
    requires
        p.wf(),
    ensures
        sorted_words(p.emitted_words()),
        forall|i: int, j: int|
            #![trigger p.emitted_words()[i], p.emitted_words()[j]]
            0 <= i < j < p.emitted_words().len() ==> p.emitted_words()[i].len()
                <= p.emitted_words()[j].len() && p.emitted_words()[i] != p.emitted_words()[j],
{
    p.lemma_wf_emitted_sorted();
    assert forall|i: int, j: int|
        #![trigger p.emitted_words()[i], p.emitted_words()[j]]
        0 <= i < j < p.emitted_words().len() implies p.emitted_words()[i].len()
        <= p.emitted_words()[j].len() && p.emitted_words()[i] != p.emitted_words()[j] by {
        let x = p.emitted_words()[i];
        let y = p.emitted_words()[j];
        assert(word_lt(x, y));
        if x.len() == y.len() {
            lemma_lex_lt_asym(x, y);
            if x == y {
                assert(lex_lt(x, y) && lex_lt(y, x));
            }
        }
    }
}

impl Producer {
    /// The emitted words are strictly increasing in the word order.
    proof fn lemma_wf_emitted_sorted(&self)
        requires
            self.wf(),
        ensures
            sorted_words(self.emitted_words()),
    {
        let w = layers_view(self.words);
        let gm = self.grammar@;
        let start = gm.start;
        lemma_flat_sorted(w, start, gm.rules.len() as int, w.len() - 1);
        let pre = flat_start(w, start, w.len() - 1);
        let tail = w[w.len() - 1][start].take(self.next as int);
        assert forall|i: int, j: int|
            0 <= i < j < self.emitted@.len() implies word_lt(
            self.emitted@[i],
            self.emitted@[j],
        ) by {
            if j < pre.len() {
                assert(self.emitted@[i] == pre[i] && self.emitted@[j] == pre[j]);
            } else if i >= pre.len() {
                assert(self.emitted@[i] == tail[i - pre.len()]);
                assert(self.emitted@[j] == tail[j - pre.len()]);
                assert(tail[i - pre.len()] == w[w.len() - 1][start][i - pre.len()]);
                assert(tail[j - pre.len()] == w[w.len() - 1][start][j - pre.len()]);
                assert(lex_lt(self.emitted@[i], self.emitted@[j]));
                assert(self.emitted@[i].len() == w.len() - 1);
                assert(self.emitted@[j].len() == w.len() - 1);
            } else {
                assert(self.emitted@[i] == pre[i]);
                assert(self.emitted@[j] == tail[j - pre.len()]);
                assert(tail[j - pre.len()] == w[w.len() - 1][start][j - pre.len()]);
                assert(self.emitted@[i].len() < w.len() - 1);
                assert(self.emitted@[j].len() == w.len() - 1);
            }
        }
    }
}

} // verus!
