//! The surface lexer: raw text to a token stream with source locations.

use vstd::prelude::*;
use vstd::string::StrSliceExecFns;
use vstd::string::StringExecFns;
use crate::grammar::{chars_of, string_push_char};

verus! {

/// An inclusive character range of the source text.
#[derive(Clone, Copy, PartialEq, Eq, Structural, Debug)]
pub struct Location {
    pub from: usize,
    pub to: usize,
}

/// One surface token.
#[derive(Clone, PartialEq, Eq, Debug)]
pub enum Token {
    Str(String),
    RuleOpen,
    RuleClose,
    GroupOpen,
    GroupClose,
    OptOpen,
    OptClose,
    RepOpen,
    RepClose,
    Alternative,
    Assign,
    Newline,
}

/// The mathematical value of a surface token.
pub ghost enum TokModel {
    Str(Seq<char>),
    RuleOpen,
    RuleClose,
    GroupOpen,
    GroupClose,
    OptOpen,
    OptClose,
    RepOpen,
    RepClose,
    Alternative,
    Assign,
    Newline,
}

impl View for Token {
    type V = TokModel;

    open spec fn view(&self) -> TokModel {
        match self {
            Token::Str(s) => TokModel::Str(s@),
            Token::RuleOpen => TokModel::RuleOpen,
            Token::RuleClose => TokModel::RuleClose,
            Token::GroupOpen => TokModel::GroupOpen,
            Token::GroupClose => TokModel::GroupClose,
            Token::OptOpen => TokModel::OptOpen,
            Token::OptClose => TokModel::OptClose,
            Token::RepOpen => TokModel::RepOpen,
            Token::RepClose => TokModel::RepClose,
            Token::Alternative => TokModel::Alternative,
            Token::Assign => TokModel::Assign,
            Token::Newline => TokModel::Newline,
        }
    }
}

/// The mathematical value of a located token stream: inclusive source
/// range and token.
pub open spec fn lexed_view(out: Seq<(Location, Token)>) -> Seq<((int, int), TokModel)> {
    out.map_values(|e: (Location, Token)| ((e.0.from as int, e.0.to as int), e.1@))
}

/// The pending literal, flushed as one token when it is not empty.
pub open spec fn lex_flush(acc: Seq<char>, begin: int, upto: int) -> Seq<((int, int), TokModel)> {
    if acc.len() > 0 {
        seq![((begin, upto), TokModel::Str(acc))]
    } else {
        Seq::<((int, int), TokModel)>::empty()
    }
}

/// The symbol token a single character stands for, if any.
pub open spec fn symbol_of(c: char) -> Option<TokModel> {
    if c == '<' {
        Option::Some(TokModel::RuleOpen)
    } else if c == '>' {
        Option::Some(TokModel::RuleClose)
    } else if c == '(' {
        Option::Some(TokModel::GroupOpen)
    } else if c == ')' {
        Option::Some(TokModel::GroupClose)
    } else if c == '[' {
        Option::Some(TokModel::OptOpen)
    } else if c == ']' {
        Option::Some(TokModel::OptClose)
    } else if c == '{' {
        Option::Some(TokModel::RepOpen)
    } else if c == '}' {
        Option::Some(TokModel::RepClose)
    } else if c == '|' {
        Option::Some(TokModel::Alternative)
    } else if c == '\n' {
        Option::Some(TokModel::Newline)
    } else {
        Option::None
    }
}

/// The tokens of the text from position `i` on, with `acc` the literal
/// characters collected so far since position `begin`: `<=` becomes one
/// assignment token, punctuation becomes its symbol token and flushes
/// the pending literal, a backslash takes the next character literally,
/// blanks only separate, and every other character extends the literal.
pub open spec fn lex_from(cs: Seq<char>, i: int, acc: Seq<char>, begin: int) -> Seq<
    ((int, int), TokModel),
>
    decreases cs.len() - i,
{
    if i < 0 || i >= cs.len() {
        lex_flush(acc, begin, cs.len() - 1)
    } else if cs[i] == '<' && i + 1 < cs.len() && cs[i + 1] == '=' {
        lex_flush(acc, begin, i) + seq![((i, i + 1), TokModel::Assign)] + lex_from(
            cs,
            i + 2,
            Seq::<char>::empty(),
            i + 2,
        )
    } else if symbol_of(cs[i]) is Some {
        lex_flush(acc, begin, i - 1) + seq![((i, i), symbol_of(cs[i])->0)] + lex_from(
            cs,
            i + 1,
            Seq::<char>::empty(),
            i + 1,
        )
    } else if cs[i] == '\\' {
        if i + 1 < cs.len() {
            lex_from(cs, i + 2, acc.push(cs[i + 1]), begin)
        } else {
            lex_from(cs, i + 1, acc, begin)
        }
    } else if cs[i] == ' ' || cs[i] == '\t' {
        lex_from(cs, i + 1, acc, begin)
    } else {
        lex_from(cs, i + 1, acc.push(cs[i]), begin)
    }
}

/// The surface text a token stands for.
pub open spec fn token_text(t: TokModel) -> Seq<char> {
    match t {
        TokModel::Str(s) => s,
        TokModel::RuleOpen => "<"@,
        TokModel::RuleClose => ">"@,
        TokModel::GroupOpen => "("@,
        TokModel::GroupClose => ")"@,
        TokModel::OptOpen => "["@,
        TokModel::OptClose => "]"@,
        TokModel::RepOpen => "{"@,
        TokModel::RepClose => "}"@,
        TokModel::Alternative => "|"@,
        TokModel::Assign => "<="@,
        TokModel::Newline => "\\n"@,
    }
}

impl Token {
    /// The surface text this token stands for.
    pub fn to_string(&self) -> (r: String)
        ensures
            r@ == token_text(self@),
    {
        match self {
            Token::Str(s) => s.clone(),
            Token::RuleOpen => String::from_str("<"),
            Token::RuleClose => String::from_str(">"),
            Token::GroupOpen => String::from_str("("),
            Token::GroupClose => String::from_str(")"),
            Token::OptOpen => String::from_str("["),
            Token::OptClose => String::from_str("]"),
            Token::RepOpen => String::from_str("{"),
            Token::RepClose => String::from_str("}"),
            Token::Alternative => String::from_str("|"),
            Token::Assign => String::from_str("<="),
            Token::Newline => String::from_str("\\n"),
        }
    }

    /// How this token is described in a parse error: literals are
    /// described as a class, the rest quoted.
    pub fn to_expected(&self) -> (r: String)
        ensures
            self is Str ==> r@ == "a literal"@,
            !(self is Str) ==> r@ == "`"@ + token_text(self@) + "`"@,
    {
        match self {
            Token::Str(_) => String::from_str("a literal"),
            _ => {
                let mut out = String::from_str("`");
                let text = self.to_string();
                out.append(text.as_str());
                out.append("`");
                out
            },
        }
    }
}

/// Splits the source text into tokens, exactly as [`lex_from`] lays
/// down: punctuation becomes symbol tokens, `<=` one assignment token,
/// a backslash takes the next character literally, blanks separate
/// literals, and every other run of characters becomes a literal
/// token. Literal tokens are never empty.
pub fn lex(input: &str) -> (out: Vec<(Location, Token)>)
    ensures
        lexed_view(out@) == lex_from(input@, 0, Seq::<char>::empty(), 0),
        forall|k: int|
            0 <= k < out@.len() && (#[trigger] out@[k]).1 is Str ==> out@[k].1->Str_0@.len() > 0,
{
    let chars = chars_of(input);
    let ghost cs = chars@;
    let ghost full = lex_from(cs, 0, Seq::<char>::empty(), 0);
    let n = chars.len();
    let mut tokens: Vec<(Location, Token)> = Vec::new();
    let mut acc: Vec<char> = Vec::new();
    let mut acc_begin: usize = 0;
    let mut i: usize = 0;
    proof {
        assert(lexed_view(tokens@) + full =~= full);
    }
    while i < n
        invariant
            i <= n,
            n == cs.len(),
            cs == chars@,
            cs == input@,
            full == lex_from(cs, 0, Seq::<char>::empty(), 0),
            full == lexed_view(tokens@) + lex_from(cs, i as int, acc@, acc_begin as int),
            acc@.len() > 0 ==> i >= 1,
            forall|k: int|
                0 <= k < tokens@.len() && (#[trigger] tokens@[k]).1 is Str
                    ==> tokens@[k].1->Str_0@.len() > 0,
        decreases n - i,
    {
        let ghost i0 = i as int;
        let ghost acc0 = acc@;
        let ghost b0 = acc_begin as int;
        let ch = chars[i];
        let from = i;
        let mut tok: Option<Token> = Option::None;
        if ch == '<' {
            if i + 1 < n && chars[i + 1] == '=' {
                i = i + 1;
                tok = Option::Some(Token::Assign);
            } else {
                tok = Option::Some(Token::RuleOpen);
            }
        } else if ch == '>' {
            tok = Option::Some(Token::RuleClose);
        } else if ch == '(' {
            tok = Option::Some(Token::GroupOpen);
        } else if ch == ')' {
            tok = Option::Some(Token::GroupClose);
        } else if ch == '[' {
            tok = Option::Some(Token::OptOpen);
        } else if ch == ']' {
            tok = Option::Some(Token::OptClose);
        } else if ch == '{' {
            tok = Option::Some(Token::RepOpen);
        } else if ch == '}' {
            tok = Option::Some(Token::RepClose);
        } else if ch == '|' {
            tok = Option::Some(Token::Alternative);
        } else if ch == '\n' {
            tok = Option::Some(Token::Newline);
        } else if ch == '\\' {
            i = i + 1;
            if i < n {
                acc.push(chars[i]);
                i = i + 1;
                proof {
                    assert(lex_from(cs, i0, acc0, b0) == lex_from(
                        cs,
                        i0 + 2,
                        acc0.push(cs[i0 + 1]),
                        b0,
                    ));
                }
            } else {
                proof {
                    assert(lex_from(cs, i0, acc0, b0) == lex_from(cs, i0 + 1, acc0, b0));
                }
            }
            continue ;
        } else if ch == ' ' || ch == '\t' {
            i = i + 1;
            proof {
                assert(lex_from(cs, i0, acc0, b0) == lex_from(cs, i0 + 1, acc0, b0));
            }
            continue ;
        } else {
            acc.push(ch);
            i = i + 1;
            proof {
                assert(symbol_of(cs[i0]) is None);
                assert(lex_from(cs, i0, acc0, b0) == lex_from(cs, i0 + 1, acc0.push(cs[i0]), b0));
            }
            continue ;
        }
        // a symbol token ends the pending literal and is recorded itself
        let ghost toks0 = tokens@;
        if acc.len() > 0 {
            let text = chars_to_string(&acc);
            tokens.push((Location { from: acc_begin, to: i - 1 }, Token::Str(text)));
            acc = Vec::new();
        }
        proof {
            assert(lexed_view(tokens@) =~= lexed_view(toks0) + lex_flush(acc0, b0, i as int - 1));
        }
        let ghost toks1 = tokens@;
        acc_begin = i + 1;
        match tok {
            Option::Some(t) => {
                let ghost tv = t@;
                tokens.push((Location { from, to: i }, t));
                proof {
                    assert(lexed_view(tokens@) =~= lexed_view(toks1) + seq![
                        ((from as int, i as int), tv),
                    ]);
                    if tv is Assign {
                        assert(i as int == i0 + 1);
                        assert(cs[i0] == '<' && i0 + 1 < cs.len() && cs[i0 + 1] == '=');
                        assert(lex_from(cs, i0, acc0, b0) == lex_flush(acc0, b0, i0)
                            + seq![((i0, i0 + 1), TokModel::Assign)] + lex_from(
                            cs,
                            i0 + 2,
                            Seq::<char>::empty(),
                            i0 + 2,
                        ));
                    } else {
                        assert(i as int == i0);
                        assert(!(cs[i0] == '<' && i0 + 1 < cs.len() && cs[i0 + 1] == '='));
                        assert(symbol_of(cs[i0]) == Option::Some(tv));
                        assert(lex_from(cs, i0, acc0, b0) == lex_flush(acc0, b0, i0 - 1)
                            + seq![((i0, i0), tv)] + lex_from(
                            cs,
                            i0 + 1,
                            Seq::<char>::empty(),
                            i0 + 1,
                        ));
                    }
                    assert(acc@ =~= Seq::<char>::empty());
                    assert(lexed_view(toks0) + lex_from(cs, i0, acc0, b0) =~= lexed_view(tokens@)
                        + lex_from(cs, i as int + 1, acc@, i as int + 1));
                }
            },
            Option::None => {},
        }
        i = i + 1;
    }
    if acc.len() > 0 {
        let ghost toks0 = tokens@;
        let text = chars_to_string(&acc);
        tokens.push((Location { from: acc_begin, to: i - 1 }, Token::Str(text)));
        proof {
            assert(lexed_view(tokens@) =~= lexed_view(toks0) + lex_flush(
                acc@,
                acc_begin as int,
                cs.len() - 1,
            ));
        }
    }
    proof {
        assert(lex_from(cs, n as int, acc@, acc_begin as int) == lex_flush(
            acc@,
            acc_begin as int,
            cs.len() - 1,
        ));
        if acc@.len() == 0 {
            assert(lexed_view(tokens@) + lex_from(cs, n as int, acc@, acc_begin as int)
                =~= lexed_view(tokens@));
        }
    }
    tokens
}

/// Collects characters into a string.
fn chars_to_string(cs: &Vec<char>) -> (r: String)
    ensures
        r@ == cs@,
{
    let mut out = String::new();
    let mut i: usize = 0;
    while i < cs.len()
        invariant
            i <= cs.len(),
            out@ == cs@.take(i as int),
        decreases cs.len() - i,
    {
        string_push_char(&mut out, cs[i]);
        proof {
            assert(cs@.take(i as int).push(cs@[i as int]) =~= cs@.take(i + 1));
        }
        i += 1;
    }
    proof {
        assert(cs@.take(cs@.len() as int) =~= cs@);
    }
    out
}

} // verus!
