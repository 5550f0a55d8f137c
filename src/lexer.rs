//! Splitting rule text into tokens. Whitespace separates tokens and is
//! otherwise insignificant.
use vstd::prelude::*;
use crate::ast::Operand;
use crate::operands::{all_digit_chars, lemma_dot_pos, numeral_wf};

verus! {

/// The kinds of token of the rule language.
#[derive(Debug, Clone, Copy, PartialEq, Eq, Structural)]
pub enum TokenKind {
    Operand(Operand),
    Eq,
    NotEq,
    Percent,
    Comma,
    DotDot,
    Tilde,
    Ellipsis,
    Or,
    And,
    AtInteger,
    AtDecimal,
    /// `digit+`
    Number,
    /// `digit+ "." digit+`
    Decimal,
}

/// A token and the bytes `start..end` of the input that it spans.
#[derive(Debug, Clone, Copy, PartialEq, Eq, Structural)]
pub struct Token {
    pub kind: TokenKind,
    pub start: usize,
    pub end: usize,
}

/// A token as the grammar sees it. `Num` and `Dec` carry their text. `Val` and
/// `Lit` occur only in the token sequence that a syntax tree stands for: `Val(k)`
/// is any numeral of value `k`, `Lit(t)` the numeral written `t`.
pub enum TokV {
    Op(Operand),
    Eq,
    NotEq,
    Percent,
    Comma,
    DotDot,
    Tilde,
    Ellipsis,
    Or,
    And,
    AtInteger,
    AtDecimal,
    Num(Seq<u8>),
    Dec(Seq<u8>),
    Val(nat),
    Lit(Seq<char>),
}

pub open spec fn is_ws(b: u8) -> bool {
    b == 32 || b == 9 || b == 10 || b == 13
}

pub open spec fn is_digit(b: u8) -> bool {
    48 <= b && b <= 57
}

pub open spec fn is_letter(b: u8) -> bool {
    97 <= b && b <= 122
}

pub open spec fn in_class(b: u8, letters: bool) -> bool {
    if letters {
        is_letter(b)
    } else {
        is_digit(b)
    }
}

/// Length of the longest prefix of `s` made of letters (or of digits).
pub open spec fn run_len(s: Seq<u8>, letters: bool) -> nat
    decreases s.len(),
{
    if s.len() > 0 && in_class(s[0], letters) {
        1 + run_len(s.drop_first(), letters)
    } else {
        0
    }
}

/// The token that a word of lower-case letters stands for.
pub open spec fn word_token(w: Seq<u8>) -> Option<TokV> {
    if w.len() == 1 {
        if w[0] == 110 {
            Some(TokV::Op(Operand::N))
        } else if w[0] == 105 {
            Some(TokV::Op(Operand::I))
        } else if w[0] == 118 {
            Some(TokV::Op(Operand::V))
        } else if w[0] == 119 {
            Some(TokV::Op(Operand::W))
        } else if w[0] == 102 {
            Some(TokV::Op(Operand::F))
        } else if w[0] == 116 {
            Some(TokV::Op(Operand::T))
        } else if w[0] == 99 {
            Some(TokV::Op(Operand::C))
        } else if w[0] == 101 {
            Some(TokV::Op(Operand::E))
        } else {
            None
        }
    } else if w =~= seq![111u8, 114] {
        Some(TokV::Or)
    } else if w =~= seq![97u8, 110, 100] {
        Some(TokV::And)
    } else {
        None
    }
}

/// The token that `@` followed by the word `w` stands for.
pub open spec fn at_token(w: Seq<u8>) -> Option<TokV> {
    if w =~= seq![105u8, 110, 116, 101, 103, 101, 114] {
        Some(TokV::AtInteger)
    } else if w =~= seq![100u8, 101, 99, 105, 109, 97, 108] {
        Some(TokV::AtDecimal)
    } else {
        None
    }
}

/// The token at the start of `s` (which does not start with whitespace), and
/// its length in bytes.
pub open spec fn next_token(s: Seq<u8>) -> Option<(TokV, nat)>
    recommends
        s.len() > 0,
{
    let b = s[0];
    if is_letter(b) {
        let k = run_len(s, true);
        match word_token(s.subrange(0, k as int)) {
            Some(t) => Some((t, k)),
            None => None,
        }
    } else if b == 64 {
        let k = run_len(s.drop_first(), true);
        match at_token(s.subrange(1, 1 + k as int)) {
            Some(t) => Some((t, k + 1)),
            None => None,
        }
    } else if is_digit(b) {
        let k = run_len(s, false) as int;
        if k + 1 < s.len() && s[k] == 46 && is_digit(s[k + 1]) {
            let k2 = k + 1 + run_len(s.subrange(k + 1, s.len() as int), false);
            Some((TokV::Dec(s.subrange(0, k2)), k2 as nat))
        } else {
            Some((TokV::Num(s.subrange(0, k)), k as nat))
        }
    } else if b == 61 {
        Some((TokV::Eq, 1))
    } else if b == 33 {
        if s.len() > 1 && s[1] == 61 {
            Some((TokV::NotEq, 2))
        } else {
            None
        }
    } else if b == 37 {
        Some((TokV::Percent, 1))
    } else if b == 44 {
        Some((TokV::Comma, 1))
    } else if b == 126 {
        Some((TokV::Tilde, 1))
    } else if b == 46 {
        if s.len() > 2 && s[1] == 46 && s[2] == 46 {
            Some((TokV::Ellipsis, 3))
        } else if s.len() > 1 && s[1] == 46 {
            Some((TokV::DotDot, 2))
        } else {
            None
        }
    } else if b == 0xE2 {
        if s.len() > 2 && s[1] == 0x80 && s[2] == 0xA6 {
            Some((TokV::Ellipsis, 3))
        } else {
            None
        }
    } else {
        None
    }
}

pub open spec fn prepend(p: Seq<TokV>, o: Option<Seq<TokV>>) -> Option<Seq<TokV>> {
    match o {
        Some(r) => Some(p + r),
        None => None,
    }
}

/// The tokens of `s`, or `None` when `s` holds a byte sequence that is no token.
pub open spec fn lex(s: Seq<u8>) -> Option<Seq<TokV>>
    decreases s.len(),
{
    if s.len() == 0 {
        Some(Seq::empty())
    } else if is_ws(s[0]) {
        lex(s.drop_first())
    } else {
        match next_token(s) {
            None => None,
            Some((t, k)) => if 0 < k <= s.len() {
                prepend(seq![t], lex(s.subrange(k as int, s.len() as int)))
            } else {
                None
            },
        }
    }
}

/// The token that `t` stands for in the input `s`.
pub open spec fn tok_view(t: Token, s: Seq<u8>) -> TokV {
    match t.kind {
        TokenKind::Operand(o) => TokV::Op(o),
        TokenKind::Eq => TokV::Eq,
        TokenKind::NotEq => TokV::NotEq,
        TokenKind::Percent => TokV::Percent,
        TokenKind::Comma => TokV::Comma,
        TokenKind::DotDot => TokV::DotDot,
        TokenKind::Tilde => TokV::Tilde,
        TokenKind::Ellipsis => TokV::Ellipsis,
        TokenKind::Or => TokV::Or,
        TokenKind::And => TokV::And,
        TokenKind::AtInteger => TokV::AtInteger,
        TokenKind::AtDecimal => TokV::AtDecimal,
        TokenKind::Number => TokV::Num(s.subrange(t.start as int, t.end as int)),
        TokenKind::Decimal => TokV::Dec(s.subrange(t.start as int, t.end as int)),
    }
}

pub open spec fn toks_view(ts: Seq<Token>, s: Seq<u8>) -> Seq<TokV> {
    ts.map_values(|t: Token| tok_view(t, s))
}

pub open spec fn chars_of(x: Seq<u8>) -> Seq<char> {
    x.map_values(|b: u8| b as char)
}

/// The token spans a non-empty part of the input, and a numeral token spans a numeral.
pub open spec fn token_ok(t: Token, s: Seq<u8>) -> bool {
    &&& t.start < t.end <= s.len()
    &&& t.kind == TokenKind::Number ==> all_digit_chars(chars_of(s.subrange(t.start as int, t.end as int)))
    &&& t.kind == TokenKind::Decimal ==> numeral_wf(chars_of(s.subrange(t.start as int, t.end as int)))
}

pub open spec fn spans_ok(ts: Seq<Token>, s: Seq<u8>) -> bool {
    forall|k: int| 0 <= k < ts.len() ==> token_ok(#[trigger] ts[k], s)
}

proof fn lemma_digit_chars(s: Seq<u8>, a: int, b: int)
    requires
        0 <= a <= b <= s.len(),
        forall|q: int| a <= q < b ==> is_digit(#[trigger] s[q]),
    ensures
        all_digit_chars(chars_of(s.subrange(a, b))),
{
    let c = chars_of(s.subrange(a, b));
    assert forall|q: int| 0 <= q < c.len() implies crate::operands::is_digit_char(#[trigger] c[q]) by {
        assert(c[q] == s[a + q] as char);
        assert(is_digit(s[a + q]));
    }
}

fn scan(s: &[u8], i: usize, letters: bool) -> (j: usize)
    requires
        i <= s@.len(),
    ensures
        i <= j <= s@.len(),
        j - i == run_len(s@.subrange(i as int, s@.len() as int), letters),
        forall|q: int| i <= q < j ==> in_class(#[trigger] s@[q], letters),
        j < s@.len() ==> !in_class(s@[j as int], letters),
{
    let mut j = i;
    while j < s.len() && ((letters && 97 <= s[j] && s[j] <= 122) || (!letters && 48 <= s[j]
        && s[j] <= 57))
        invariant
            i <= j <= s@.len(),
            run_len(s@.subrange(i as int, s@.len() as int), letters) == (j - i) + run_len(
                s@.subrange(j as int, s@.len() as int),
                letters,
            ),
            forall|q: int| i <= q < j ==> in_class(#[trigger] s@[q], letters),
        decreases s@.len() - j,
    {
        let ghost r = s@.subrange(j as int, s@.len() as int);
        assert(r.drop_first() =~= s@.subrange(j + 1, s@.len() as int));
        j = j + 1;
    }
    j
}

/// The token that starts at byte `i` of `s`, which is no whitespace.
fn token_at(s: &[u8], i: usize) -> (r: Option<Token>)
    requires
        i < s@.len(),
        !is_ws(s@[i as int]),
    ensures
        match r {
            None => next_token(s@.subrange(i as int, s@.len() as int)) is None,
            Some(t) => t.start == i && token_ok(t, s@) && next_token(
                s@.subrange(i as int, s@.len() as int),
            ) == Some((tok_view(t, s@), (t.end - i) as nat)),
        },
{
    let ghost r = s@.subrange(i as int, s@.len() as int);
    let n = s.len();
    let b = s[i];
    assert(r[0] == b);
    if 97 <= b && b <= 122 {
        let j = scan(s, i, true);
        let ghost w = r.subrange(0, (j - i) as int);
        assert(w =~= s@.subrange(i as int, j as int));
        assert(j > i);
        let kind = if j - i == 1 {
            if b == 110 {
                Some(TokenKind::Operand(Operand::N))
            } else if b == 105 {
                Some(TokenKind::Operand(Operand::I))
            } else if b == 118 {
                Some(TokenKind::Operand(Operand::V))
            } else if b == 119 {
                Some(TokenKind::Operand(Operand::W))
            } else if b == 102 {
                Some(TokenKind::Operand(Operand::F))
            } else if b == 116 {
                Some(TokenKind::Operand(Operand::T))
            } else if b == 99 {
                Some(TokenKind::Operand(Operand::C))
            } else if b == 101 {
                Some(TokenKind::Operand(Operand::E))
            } else {
                None
            }
        } else if j - i == 2 && s[i] == 111 && s[i + 1] == 114 {
            assert(w =~= seq![111u8, 114]);
            Some(TokenKind::Or)
        } else if j - i == 3 && s[i] == 97 && s[i + 1] == 110 && s[i + 2] == 100 {
            assert(w =~= seq![97u8, 110, 100]);
            Some(TokenKind::And)
        } else {
            assert(!(w =~= seq![111u8, 114]) && !(w =~= seq![97u8, 110, 100])) by {
                if w =~= seq![111u8, 114] {
                    assert(w[0] == 111 && w[1] == 114);
                }
                if w =~= seq![97u8, 110, 100] {
                    assert(w[0] == 97 && w[1] == 110 && w[2] == 100);
                }
            }
            None
        };
        match kind {
            Some(k) => Some(Token { kind: k, start: i, end: j }),
            None => None,
        }
    } else if b == 64 {
        let j = scan(s, i + 1, true);
        assert(r.drop_first() =~= s@.subrange(i + 1, s@.len() as int));
        let ghost w = r.subrange(1, (j - i) as int);
        assert(w =~= s@.subrange(i + 1, j as int));
        let ghost lit_i = seq![105u8, 110, 116, 101, 103, 101, 114];
        let ghost lit_d = seq![100u8, 101, 99, 105, 109, 97, 108];
        if j - i == 8 && s[i + 1] == 105 && s[i + 2] == 110 && s[i + 3] == 116 && s[i + 4] == 101
            && s[i + 5] == 103 && s[i + 6] == 101 && s[i + 7] == 114 {
            assert(w =~= lit_i);
            Some(Token { kind: TokenKind::AtInteger, start: i, end: j })
        } else if j - i == 8 && s[i + 1] == 100 && s[i + 2] == 101 && s[i + 3] == 99 && s[i + 4]
            == 105 && s[i + 5] == 109 && s[i + 6] == 97 && s[i + 7] == 108 {
            assert(w =~= lit_d);
            Some(Token { kind: TokenKind::AtDecimal, start: i, end: j })
        } else {
            assert(!(w =~= lit_i) && !(w =~= lit_d)) by {
                if w =~= lit_i {
                    assert(w.len() == 7 && w[0] == 105 && w[1] == 110 && w[2] == 116 && w[3] == 101
                        && w[4] == 103 && w[5] == 101 && w[6] == 114);
                }
                if w =~= lit_d {
                    assert(w.len() == 7 && w[0] == 100 && w[1] == 101 && w[2] == 99 && w[3] == 105
                        && w[4] == 109 && w[5] == 97 && w[6] == 108);
                }
            }
            None
        }
    } else if 48 <= b && b <= 57 {
        let j = scan(s, i, false);
        assert(j > i);
        if j < n - 1 && s[j] == 46 && 48 <= s[j + 1] && s[j + 1] <= 57 {
            let j2 = scan(s, j + 1, false);
            proof {
                let c = chars_of(s@.subrange(i as int, j2 as int));
                assert forall|q: int| 0 <= q < j - i implies c[q] != '.' by {
                    assert(c[q] == s@[i + q] as char);
                    assert(in_class(s@[i + q], false));
                }
                assert(c[j - i] == s@[j as int] as char);
                lemma_dot_pos(c, j - i);
                lemma_digit_chars(s@, i as int, j as int);
                lemma_digit_chars(s@, j + 1, j2 as int);
                assert(c.subrange(0, j - i) =~= chars_of(s@.subrange(i as int, j as int)));
                assert(c.subrange(j - i + 1, c.len() as int) =~= chars_of(s@.subrange(j + 1, j2 as int)));
            }
            assert(r.subrange(j + 1 - i, r.len() as int) =~= s@.subrange(j + 1, s@.len() as int));
            assert(r.subrange(0, j2 - i) =~= s@.subrange(i as int, j2 as int));
            Some(Token { kind: TokenKind::Decimal, start: i, end: j2 })
        } else {
            assert(r.subrange(0, j - i) =~= s@.subrange(i as int, j as int));
            proof {
                lemma_digit_chars(s@, i as int, j as int);
            }
            Some(Token { kind: TokenKind::Number, start: i, end: j })
        }
    } else if b == 61 {
        Some(Token { kind: TokenKind::Eq, start: i, end: i + 1 })
    } else if b == 33 {
        if n - i > 1 && s[i + 1] == 61 {
            Some(Token { kind: TokenKind::NotEq, start: i, end: i + 2 })
        } else {
            None
        }
    } else if b == 37 {
        Some(Token { kind: TokenKind::Percent, start: i, end: i + 1 })
    } else if b == 44 {
        Some(Token { kind: TokenKind::Comma, start: i, end: i + 1 })
    } else if b == 126 {
        Some(Token { kind: TokenKind::Tilde, start: i, end: i + 1 })
    } else if b == 46 {
        if n - i > 2 && s[i + 1] == 46 && s[i + 2] == 46 {
            Some(Token { kind: TokenKind::Ellipsis, start: i, end: i + 3 })
        } else if n - i > 1 && s[i + 1] == 46 {
            Some(Token { kind: TokenKind::DotDot, start: i, end: i + 2 })
        } else {
            None
        }
    } else if b == 0xE2 {
        if n - i > 2 && s[i + 1] == 0x80 && s[i + 2] == 0xA6 {
            Some(Token { kind: TokenKind::Ellipsis, start: i, end: i + 3 })
        } else {
            None
        }
    } else {
        None
    }
}

/// The tokens of `s`: `Ok` exactly when `lex` accepts `s`, with the tokens that
/// `lex` gives; otherwise `Err` with the offset of the byte where no token starts.
pub fn tokenize(s: &[u8]) -> (r: Result<Vec<Token>, usize>)
    ensures
        match r {
            Ok(ts) => lex(s@) == Some(toks_view(ts@, s@)) && spans_ok(ts@, s@),
            Err(i) => lex(s@) is None && i < s@.len(),
        },
{
    let mut toks: Vec<Token> = Vec::new();
    let mut i: usize = 0;
    assert(s@.subrange(0, s@.len() as int) =~= s@);
    assert(toks_view(toks@, s@) =~= Seq::<TokV>::empty());
    while i < s.len()
        invariant
            i <= s@.len(),
            lex(s@) == prepend(toks_view(toks@, s@), lex(s@.subrange(i as int, s@.len() as int))),
            spans_ok(toks@, s@),
        decreases s@.len() - i,
    {
        let ghost rest = s@.subrange(i as int, s@.len() as int);
        let b = s[i];
        assert(rest[0] == b);
        if b == 32 || b == 9 || b == 10 || b == 13 {
            assert(rest.drop_first() =~= s@.subrange(i + 1, s@.len() as int));
            i = i + 1;
        } else {
            match token_at(s, i) {
                None => {
                    return Err(i);
                },
                Some(t) => {
                    let ghost k = (t.end - i) as int;
                    assert(rest.subrange(k, rest.len() as int) =~= s@.subrange(
                        t.end as int,
                        s@.len() as int,
                    ));
                    let ghost old_toks = toks@;
                    toks.push(t);
                    assert(toks_view(toks@, s@) =~= toks_view(old_toks, s@) + seq![tok_view(t, s@)]);
                    let ghost tail = lex(s@.subrange(t.end as int, s@.len() as int));
                    proof {
                        if tail is Some {
                            assert(toks_view(old_toks, s@) + (seq![tok_view(t, s@)] + tail.unwrap())
                                =~= toks_view(toks@, s@) + tail.unwrap());
                        }
                    }
                    i = t.end;
                },
            }
        }
    }
    assert(toks_view(toks@, s@) + Seq::<TokV>::empty() =~= toks_view(toks@, s@));
    Ok(toks)
}

} // verus!
