//! Total orders on terminals, tokens and definitions.
//!
//! Alternatives of a rule are kept sorted and duplicate-free under these
//! orders, and the word producer emits words sorted by length and then by
//! the natural character order.

use vstd::prelude::*;
use crate::grammar::{Terminal, Token, TokenModel, Definition, def_view};

verus! {

/// Lexicographic order on character sequences; a proper prefix precedes
/// its extensions.
pub open spec fn lex_lt(a: Seq<char>, b: Seq<char>) -> bool
    decreases a.len(),
{
    if b.len() == 0 {
        false
    } else if a.len() == 0 {
        true
    } else if a[0] != b[0] {
        (a[0] as int) < (b[0] as int)
    } else {
        lex_lt(a.drop_first(), b.drop_first())
    }
}

/// The order on words of a language: shorter words first, equal-length
/// words by the natural character order.
pub open spec fn word_lt(a: Seq<char>, b: Seq<char>) -> bool {
    a.len() < b.len() || (a.len() == b.len() && lex_lt(a, b))
}

/// The order on tokens: rule references first, by index; then terminals,
/// lexicographically.
pub open spec fn tok_lt(a: TokenModel, b: TokenModel) -> bool {
    match (a, b) {
        (TokenModel::NT(x), TokenModel::NT(y)) => x < y,
        (TokenModel::NT(_), TokenModel::T(_)) => true,
        (TokenModel::T(_), TokenModel::NT(_)) => false,
        (TokenModel::T(s), TokenModel::T(t)) => lex_lt(s, t),
    }
}

/// Lexicographic order on definitions, over the token order.
pub open spec fn def_lt(a: Seq<TokenModel>, b: Seq<TokenModel>) -> bool
    decreases a.len(),
{
    if b.len() == 0 {
        false
    } else if a.len() == 0 {
        true
    } else if a[0] != b[0] {
        tok_lt(a[0], b[0])
    } else {
        def_lt(a.drop_first(), b.drop_first())
    }
}

/// Two sequences with equal heads and equal tails are equal.
pub proof fn lemma_head_tail_eq<A>(a: Seq<A>, b: Seq<A>)
    requires
        a.len() > 0,
        b.len() > 0,
        a[0] == b[0],
        a.drop_first() == b.drop_first(),
    ensures
        a == b,
{
    assert(a.drop_first().len() == a.len() - 1);
    assert(b.drop_first().len() == b.len() - 1);
    assert(a.len() == b.len());
    assert forall|i: int| 0 <= i < a.len() implies a[i] == b[i] by {
        if i >= 1 {
            assert(a.drop_first()[i - 1] == a[i]);
            assert(b.drop_first()[i - 1] == b[i]);
        }
    }
    assert(a =~= b);
}

pub proof fn lemma_lex_lt_total(a: Seq<char>, b: Seq<char>)
    ensures
        lex_lt(a, b) || lex_lt(b, a) || a == b,
    decreases a.len(),
{
    if a.len() == 0 && b.len() == 0 {
        assert(a =~= b);
    } else if a.len() > 0 && b.len() > 0 && a[0] == b[0] {
        lemma_lex_lt_total(a.drop_first(), b.drop_first());
        if a.drop_first() == b.drop_first() {
            lemma_head_tail_eq(a, b);
        }
    }
}

pub proof fn lemma_lex_lt_asym(a: Seq<char>, b: Seq<char>)
    ensures
        !(lex_lt(a, b) && lex_lt(b, a)),
    decreases a.len(),
{
    if a.len() > 0 && b.len() > 0 && a[0] == b[0] {
        lemma_lex_lt_asym(a.drop_first(), b.drop_first());
    }
}

pub proof fn lemma_lex_lt_trans(a: Seq<char>, b: Seq<char>, c: Seq<char>)
    requires
        lex_lt(a, b),
        lex_lt(b, c),
    ensures
        lex_lt(a, c),
    decreases a.len(),
{
    if a.len() > 0 && b.len() > 0 && c.len() > 0 && a[0] == b[0] && b[0] == c[0] {
        lemma_lex_lt_trans(a.drop_first(), b.drop_first(), c.drop_first());
    }
}

pub proof fn lemma_word_lt_total(a: Seq<char>, b: Seq<char>)
    ensures
        word_lt(a, b) || word_lt(b, a) || a == b,
{
    lemma_lex_lt_total(a, b);
}

pub proof fn lemma_word_lt_asym(a: Seq<char>, b: Seq<char>)
    ensures
        !(word_lt(a, b) && word_lt(b, a)),
{
    lemma_lex_lt_asym(a, b);
}

pub proof fn lemma_word_lt_trans(a: Seq<char>, b: Seq<char>, c: Seq<char>)
    requires
        word_lt(a, b),
        word_lt(b, c),
    ensures
        word_lt(a, c),
{
    if a.len() == b.len() && b.len() == c.len() {
        lemma_lex_lt_trans(a, b, c);
    }
}

pub proof fn lemma_tok_lt_total(a: TokenModel, b: TokenModel)
    ensures
        tok_lt(a, b) || tok_lt(b, a) || a == b,
{
    match (a, b) {
        (TokenModel::T(s), TokenModel::T(t)) => lemma_lex_lt_total(s, t),
        _ => {},
    }
}

pub proof fn lemma_tok_lt_asym(a: TokenModel, b: TokenModel)
    ensures
        !(tok_lt(a, b) && tok_lt(b, a)),
{
    match (a, b) {
        (TokenModel::T(s), TokenModel::T(t)) => lemma_lex_lt_asym(s, t),
        _ => {},
    }
}

pub proof fn lemma_tok_lt_trans(a: TokenModel, b: TokenModel, c: TokenModel)
    requires
        tok_lt(a, b),
        tok_lt(b, c),
    ensures
        tok_lt(a, c),
{
    match (a, b, c) {
        (TokenModel::T(s), TokenModel::T(t), TokenModel::T(u)) => lemma_lex_lt_trans(s, t, u),
        _ => {},
    }
}

pub proof fn lemma_def_lt_total(a: Seq<TokenModel>, b: Seq<TokenModel>)
    ensures
        def_lt(a, b) || def_lt(b, a) || a == b,
    decreases a.len(),
{
    if a.len() == 0 && b.len() == 0 {
        assert(a =~= b);
    } else if a.len() > 0 && b.len() > 0 {
        if a[0] == b[0] {
            lemma_def_lt_total(a.drop_first(), b.drop_first());
            if a.drop_first() == b.drop_first() {
                lemma_head_tail_eq(a, b);
            }
        } else {
            lemma_tok_lt_total(a[0], b[0]);
        }
    }
}

pub proof fn lemma_def_lt_asym(a: Seq<TokenModel>, b: Seq<TokenModel>)
    ensures
        !(def_lt(a, b) && def_lt(b, a)),
    decreases a.len(),
{
    if a.len() > 0 && b.len() > 0 {
        if a[0] == b[0] {
            lemma_def_lt_asym(a.drop_first(), b.drop_first());
        } else {
            lemma_tok_lt_asym(a[0], b[0]);
        }
    }
}

pub proof fn lemma_def_lt_trans(a: Seq<TokenModel>, b: Seq<TokenModel>, c: Seq<TokenModel>)
    requires
        def_lt(a, b),
        def_lt(b, c),
    ensures
        def_lt(a, c),
    decreases a.len(),
{
    if a.len() > 0 && b.len() > 0 && c.len() > 0 {
        if a[0] == b[0] && b[0] == c[0] {
            lemma_def_lt_trans(a.drop_first(), b.drop_first(), c.drop_first());
        } else if a[0] == b[0] {
            assert(tok_lt(a[0], c[0]));
        } else if b[0] == c[0] {
            assert(tok_lt(a[0], c[0]));
        } else {
            lemma_tok_lt_trans(a[0], b[0], c[0]);
            lemma_tok_lt_asym(a[0], b[0]);
            lemma_tok_lt_asym(b[0], c[0]);
            if a[0] == c[0] {
                lemma_tok_lt_asym(a[0], b[0]);
            }
        }
    }
}

/// Three-way comparison of two terminals under the lexicographic order:
/// 0 for equal, 1 when `a` comes first, 2 when `b` comes first.
pub fn term_cmp(a: &Terminal, b: &Terminal) -> (r: u8)
    ensures
        (r == 0) == (a@ == b@),
        (r == 1) == lex_lt(a@, b@),
        (r == 2) == lex_lt(b@, a@),
{
    proof {
        lemma_lex_lt_total(a@, b@);
        lemma_lex_lt_asym(a@, b@);
        assert(a@.skip(0) =~= a@);
        assert(b@.skip(0) =~= b@);
    }
    let mut i: usize = 0;
    while i < a.len() && i < b.len()
        invariant
            i <= a.len(),
            i <= b.len(),
            lex_lt(a@, b@) == lex_lt(a@.skip(i as int), b@.skip(i as int)),
            lex_lt(b@, a@) == lex_lt(b@.skip(i as int), a@.skip(i as int)),
            (a@ == b@) == (a@.skip(i as int) =~= b@.skip(i as int)),
            lex_lt(a@, b@) || lex_lt(b@, a@) || a@ == b@,
            !(lex_lt(a@, b@) && lex_lt(b@, a@)),
            !(lex_lt(a@, b@) && a@ == b@),
            !(lex_lt(b@, a@) && a@ == b@),
        decreases a.len() - i,
    {
        let x = a[i];
        let y = b[i];
        proof {
            assert(a@.skip(i as int)[0] == a@[i as int]);
            assert(b@.skip(i as int)[0] == b@[i as int]);
        }
        if x < y {
            proof {
                assert(lex_lt(a@.skip(i as int), b@.skip(i as int)));
            }
            return 1;
        }
        if y < x {
            proof {
                assert(lex_lt(b@.skip(i as int), a@.skip(i as int)));
            }
            return 2;
        }
        proof {
            assert(x == y);
            assert(a@.skip(i as int).drop_first() =~= a@.skip(i + 1));
            assert(b@.skip(i as int).drop_first() =~= b@.skip(i + 1));
        }
        i += 1;
    }
    if a.len() < b.len() {
        proof {
            assert(a@.skip(i as int).len() == 0);
            assert(b@.skip(i as int).len() > 0);
        }
        1
    } else if b.len() < a.len() {
        proof {
            assert(b@.skip(i as int).len() == 0);
            assert(a@.skip(i as int).len() > 0);
        }
        2
    } else {
        proof {
            assert(a@.skip(i as int) =~= b@.skip(i as int));
        }
        0
    }
}

/// Three-way comparison of two tokens under the token order.
pub fn tok_cmp(a: &Token, b: &Token) -> (r: u8)
    ensures
        (r == 0) == (a@ == b@),
        (r == 1) == tok_lt(a@, b@),
        (r == 2) == tok_lt(b@, a@),
{
    match (a, b) {
        (Token::NT(x), Token::NT(y)) => {
            if x < y {
                1
            } else if y < x {
                2
            } else {
                0
            }
        },
        (Token::NT(_), Token::T(_)) => 1,
        (Token::T(_), Token::NT(_)) => 2,
        (Token::T(s), Token::T(t)) => term_cmp(s, t),
    }
}

/// Three-way comparison of two definitions under the definition order.
pub fn def_cmp(a: &Definition, b: &Definition) -> (r: u8)
    ensures
        (r == 0) == (def_view(*a) == def_view(*b)),
        (r == 1) == def_lt(def_view(*a), def_view(*b)),
        (r == 2) == def_lt(def_view(*b), def_view(*a)),
{
    let ghost av = def_view(*a);
    let ghost bv = def_view(*b);
    proof {
        lemma_def_lt_total(av, bv);
        lemma_def_lt_asym(av, bv);
        assert(av.skip(0) =~= av);
        assert(bv.skip(0) =~= bv);
    }
    let mut i: usize = 0;
    while i < a.len() && i < b.len()
        invariant
            i <= a.len(),
            i <= b.len(),
            av == def_view(*a),
            bv == def_view(*b),
            av.len() == a@.len(),
            bv.len() == b@.len(),
            def_lt(av, bv) == def_lt(av.skip(i as int), bv.skip(i as int)),
            def_lt(bv, av) == def_lt(bv.skip(i as int), av.skip(i as int)),
            (av == bv) == (av.skip(i as int) =~= bv.skip(i as int)),
            def_lt(av, bv) || def_lt(bv, av) || av == bv,
            !(def_lt(av, bv) && def_lt(bv, av)),
            !(def_lt(av, bv) && av == bv),
            !(def_lt(bv, av) && av == bv),
        decreases a.len() - i,
    {
        proof {
            assert(av.skip(i as int)[0] == av[i as int]);
            assert(bv.skip(i as int)[0] == bv[i as int]);
        }
        let c = tok_cmp(&a[i], &b[i]);
        if c == 1 {
            proof {
                assert(def_lt(av.skip(i as int), bv.skip(i as int)));
            }
            return 1;
        }
        if c == 2 {
            proof {
                assert(def_lt(bv.skip(i as int), av.skip(i as int)));
            }
            return 2;
        }
        proof {
            assert(av[i as int] == bv[i as int]);
            assert(av.skip(i as int).drop_first() =~= av.skip(i + 1));
            assert(bv.skip(i as int).drop_first() =~= bv.skip(i + 1));
        }
        i += 1;
    }
    if a.len() < b.len() {
        proof {
            assert(av.skip(i as int).len() == 0);
            assert(bv.skip(i as int).len() > 0);
        }
        1
    } else if b.len() < a.len() {
        proof {
            assert(bv.skip(i as int).len() == 0);
            assert(av.skip(i as int).len() > 0);
        }
        2
    } else {
        proof {
            assert(av.skip(i as int) =~= bv.skip(i as int));
        }
        0
    }
}

} // verus!
