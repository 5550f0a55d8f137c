//! Recursive-descent parser for the rule language.
//!
//! The grammar is given by the token sequence that each syntax tree stands for
//! (`rule_toks` and the functions under it). Parsing succeeds exactly when the
//! tokens of the input are those of a well-formed tree, and then returns that tree.
use vstd::prelude::*;
use crate::ast::{
    opt_list_view, AndCondition, Condition, DecimalValue, Expression, Operand, Operator, RangeList,
    RangeListItem, Relation, RelationV, Rule, RuleV, SampleList, SampleListV, SampleRange,
    SampleRangeV, Samples, SamplesV, Value,
};
use crate::lexer::{chars_of, is_letter, lex, spans_ok, token_ok, toks_view, tokenize, Token, TokenKind, TokV};
use crate::operands::{all_digit_chars, chars_value, digits_u64, is_digit_char, numeral_wf};

verus! {

/// What went wrong in a parse.
#[derive(Debug, Clone, Copy, PartialEq, Eq, Structural)]
pub enum ParseErrorKind {
    /// A byte or token that cannot stand where it stands
    UnexpectedCharacter,
    /// The input ends inside a production
    UnexpectedEnd,
    /// A word that is no operand or keyword
    UnknownOperand,
    /// `!` not followed by `=`
    InvalidOperator,
    /// A value larger than a `u64`
    ValueOverflow,
    /// A range whose lower bound exceeds its upper bound
    InvalidRange,
}

/// A parse error and the byte offset where it was found.
#[derive(Debug, Clone, Copy, PartialEq, Eq, Structural)]
pub struct ParseError {
    pub kind: ParseErrorKind,
    pub offset: usize,
}

// ---------------------------------------------------------------------------
// The token sequence that each tree stands for.

pub open spec fn item_toks(it: RangeListItem) -> Seq<TokV> {
    match it {
        RangeListItem::Value(v) => seq![TokV::Val(v.0 as nat)],
        RangeListItem::Range(a, b) => seq![TokV::Val(a.0 as nat), TokV::DotDot, TokV::Val(b.0 as nat)],
    }
}

pub open spec fn items_toks(s: Seq<RangeListItem>) -> Seq<TokV>
    decreases s.len(),
{
    if s.len() == 0 {
        Seq::empty()
    } else if s.len() == 1 {
        item_toks(s[0])
    } else {
        item_toks(s[0]) + seq![TokV::Comma] + items_toks(s.drop_first())
    }
}

pub open spec fn expr_toks(e: Expression) -> Seq<TokV> {
    match e.modulus {
        Some(m) => seq![TokV::Op(e.operand), TokV::Percent, TokV::Val(m.0 as nat)],
        None => seq![TokV::Op(e.operand)],
    }
}

pub open spec fn operator_tok(o: Operator) -> TokV {
    match o {
        Operator::Eq => TokV::Eq,
        Operator::NotEq => TokV::NotEq,
    }
}

pub open spec fn relation_toks(r: RelationV) -> Seq<TokV> {
    expr_toks(r.expression) + seq![operator_tok(r.operator)] + items_toks(r.range_list)
}

pub open spec fn and_toks(s: Seq<RelationV>) -> Seq<TokV>
    decreases s.len(),
{
    if s.len() == 0 {
        Seq::empty()
    } else if s.len() == 1 {
        relation_toks(s[0])
    } else {
        relation_toks(s[0]) + seq![TokV::And] + and_toks(s.drop_first())
    }
}

pub open spec fn cond_toks(s: Seq<Seq<RelationV>>) -> Seq<TokV>
    decreases s.len(),
{
    if s.len() == 0 {
        Seq::empty()
    } else if s.len() == 1 {
        and_toks(s[0])
    } else {
        and_toks(s[0]) + seq![TokV::Or] + cond_toks(s.drop_first())
    }
}

pub open spec fn sample_range_toks(r: SampleRangeV) -> Seq<TokV> {
    match r.upper {
        Some(u) => seq![TokV::Lit(r.lower), TokV::Tilde, TokV::Lit(u)],
        None => seq![TokV::Lit(r.lower)],
    }
}

pub open spec fn sample_ranges_toks(s: Seq<SampleRangeV>, ellipsis: bool) -> Seq<TokV>
    decreases s.len(),
{
    if s.len() == 0 {
        Seq::empty()
    } else if s.len() == 1 {
        sample_range_toks(s[0]) + if ellipsis {
            seq![TokV::Comma, TokV::Ellipsis]
        } else {
            Seq::empty()
        }
    } else {
        sample_range_toks(s[0]) + seq![TokV::Comma] + sample_ranges_toks(s.drop_first(), ellipsis)
    }
}

pub open spec fn opt_list_toks(at: TokV, l: Option<SampleListV>) -> Seq<TokV> {
    match l {
        Some(l) => seq![at] + sample_ranges_toks(l.ranges, l.ellipsis),
        None => Seq::empty(),
    }
}

pub open spec fn samples_toks(s: Option<SamplesV>) -> Seq<TokV> {
    match s {
        Some(s) => opt_list_toks(TokV::AtInteger, s.integer) + opt_list_toks(TokV::AtDecimal, s.decimal),
        None => Seq::empty(),
    }
}

/// The tokens that a rule stands for.
pub open spec fn rule_toks(r: RuleV) -> Seq<TokV> {
    cond_toks(r.condition) + samples_toks(r.samples)
}

// ---------------------------------------------------------------------------
// Well-formed trees: those that the grammar can produce.

pub open spec fn item_wf(it: RangeListItem) -> bool {
    match it {
        RangeListItem::Range(a, b) => a.0 <= b.0,
        RangeListItem::Value(_) => true,
    }
}

pub open spec fn items_wf(s: Seq<RangeListItem>) -> bool {
    s.len() > 0 && forall|k: int| 0 <= k < s.len() ==> item_wf(#[trigger] s[k])
}

pub open spec fn relation_wf(r: RelationV) -> bool {
    items_wf(r.range_list)
}

pub open spec fn and_wf(s: Seq<RelationV>) -> bool {
    s.len() > 0 && forall|k: int| 0 <= k < s.len() ==> relation_wf(#[trigger] s[k])
}

/// Every conjunction and every range list is non-empty and every range is ordered.
pub open spec fn cond_wf(s: Seq<Seq<RelationV>>) -> bool {
    forall|k: int| 0 <= k < s.len() ==> and_wf(#[trigger] s[k])
}

pub open spec fn sample_range_wf(r: SampleRangeV) -> bool {
    numeral_wf(r.lower) && match r.upper {
        Some(u) => numeral_wf(u),
        None => true,
    }
}

pub open spec fn sample_ranges_wf(s: Seq<SampleRangeV>) -> bool {
    s.len() > 0 && forall|k: int| 0 <= k < s.len() ==> sample_range_wf(#[trigger] s[k])
}

pub open spec fn opt_list_wf(l: Option<SampleListV>) -> bool {
    match l {
        Some(l) => sample_ranges_wf(l.ranges),
        None => true,
    }
}

pub open spec fn samples_wf(s: Option<SamplesV>) -> bool {
    match s {
        Some(s) => (s.integer is Some || s.decimal is Some) && opt_list_wf(s.integer) && opt_list_wf(
            s.decimal,
        ),
        None => true,
    }
}

pub open spec fn rule_wf(r: RuleV) -> bool {
    cond_wf(r.condition) && samples_wf(r.samples)
}

// ---------------------------------------------------------------------------
// Matching the input's tokens against the tokens of a tree.

/// The input token `a` is the token `e`: `Val(k)` is any numeral of value `k`,
/// `Lit(t)` the numeral written `t`.
pub open spec fn tok_matches(a: TokV, e: TokV) -> bool {
    match e {
        TokV::Val(k) => match a {
            TokV::Num(x) => chars_value(chars_of(x)) == k,
            _ => false,
        },
        TokV::Lit(t) => match a {
            TokV::Num(x) => chars_of(x) == t,
            TokV::Dec(x) => chars_of(x) == t,
            _ => false,
        },
        _ => a == e,
    }
}

pub open spec fn denotes(a: Seq<TokV>, e: Seq<TokV>) -> bool {
    a.len() == e.len() && forall|k: int| 0 <= k < a.len() ==> tok_matches(#[trigger] a[k], e[k])
}

/// The bytes `s` are a rule whose tree is `r`.
pub open spec fn rule_text(s: Seq<u8>, r: RuleV) -> bool {
    &&& lex(s) is Some
    &&& rule_wf(r)
    &&& denotes(lex(s).unwrap(), rule_toks(r))
}

/// The bytes `s` are a condition whose tree is `c`.
pub open spec fn condition_text(s: Seq<u8>, c: Seq<Seq<RelationV>>) -> bool {
    &&& lex(s) is Some
    &&& cond_wf(c)
    &&& denotes(lex(s).unwrap(), cond_toks(c))
}

pub open spec fn at(tv: Seq<TokV>, e: int, t: TokV) -> bool {
    0 <= e < tv.len() && tv[e] == t
}

proof fn lemma_split(tv: Seq<TokV>, p: int, m: int, q: int, e1: Seq<TokV>, e2: Seq<TokV>)
    requires
        0 <= p <= m <= q <= tv.len(),
        m - p == e1.len(),
        denotes(tv.subrange(p, q), e1 + e2),
    ensures
        denotes(tv.subrange(p, m), e1),
        denotes(tv.subrange(m, q), e2),
{
    let a = tv.subrange(p, q);
    assert forall|k: int| 0 <= k < m - p implies tok_matches(#[trigger] tv.subrange(p, m)[k], e1[k]) by {
        assert(tok_matches(a[k], (e1 + e2)[k]));
    }
    assert forall|k: int| 0 <= k < q - m implies tok_matches(#[trigger] tv.subrange(m, q)[k], e2[k]) by {
        assert(tok_matches(a[k + m - p], (e1 + e2)[k + m - p]));
    }
}

proof fn lemma_join(tv: Seq<TokV>, p: int, m: int, q: int, e1: Seq<TokV>, e2: Seq<TokV>)
    requires
        0 <= p <= m <= q <= tv.len(),
        denotes(tv.subrange(p, m), e1),
        denotes(tv.subrange(m, q), e2),
    ensures
        denotes(tv.subrange(p, q), e1 + e2),
{
    let a = tv.subrange(p, q);
    assert forall|k: int| 0 <= k < q - p implies tok_matches(#[trigger] a[k], (e1 + e2)[k]) by {
        if k < m - p {
            assert(tok_matches(tv.subrange(p, m)[k], e1[k]));
        } else {
            assert(tok_matches(tv.subrange(m, q)[k - (m - p)], e2[k - (m - p)]));
        }
    }
}

proof fn lemma_one(tv: Seq<TokV>, p: int, t: TokV)
    requires
        0 <= p < tv.len(),
    ensures
        denotes(tv.subrange(p, p + 1), seq![t]) <==> tok_matches(tv[p], t),
{
    assert(tv.subrange(p, p + 1)[0] == tv[p]);
}

// ---------------------------------------------------------------------------
// The parser.

pub open spec fn tv_of(toks: &Vec<Token>, s: &[u8]) -> Seq<TokV> {
    toks_view(toks@, s@)
}

fn error_at(toks: &Vec<Token>, s: &[u8], pos: usize, kind: ParseErrorKind) -> (r: ParseError) {
    if pos < toks.len() {
        ParseError { kind, offset: toks[pos].start }
    } else {
        ParseError { kind: ParseErrorKind::UnexpectedEnd, offset: s.len() }
    }
}

fn kind_at(toks: &Vec<Token>, pos: usize) -> (r: Option<TokenKind>)
    ensures
        match r {
            Some(k) => pos < toks@.len() && toks@[pos as int].kind == k,
            None => pos >= toks@.len(),
        },
{
    if pos < toks.len() {
        Some(toks[pos].kind)
    } else {
        None
    }
}

/// The value of the digits `s[a..b]`, when it fits in a `u64`.
fn number_value(s: &[u8], a: usize, b: usize) -> (r: Option<u64>)
    requires
        a < b <= s@.len(),
        all_digit_chars(chars_of(s@.subrange(a as int, b as int))),
    ensures
        r == digits_u64(chars_of(s@.subrange(a as int, b as int))),
{
    let ghost d = chars_of(s@.subrange(a as int, b as int));
    let mut acc: u64 = 0;
    let mut k: usize = a;
    while k < b
        invariant
            a <= k <= b <= s@.len(),
            d == chars_of(s@.subrange(a as int, b as int)),
            all_digit_chars(d),
            acc as nat == chars_value(d.subrange(0, k - a)),
        decreases b - k,
    {
        let c = s[k];
        assert(d[k - a] == c as char);
        assert(is_digit_char(d[k - a]));
        let dv: u64 = (c - 48) as u64;
        let ghost pre = d.subrange(0, k - a);
        let ghost next = d.subrange(0, k + 1 - a);
        assert(next.drop_last() =~= pre);
        assert(next.last() == c as char);
        assert((c as char) as u32 - '0' as u32 == dv);
        if acc > (u64::MAX - dv) / 10 {
            proof {
                assert(chars_value(next) > u64::MAX) by (nonlinear_arith)
                    requires
                        chars_value(next) == acc * 10 + dv,
                        acc > (u64::MAX - dv) / 10,
                        dv <= 9,
                ;
                crate::operands::lemma_prefix_value(d, k + 1 - a);
            }
            return None;
        }
        assert(acc * 10 + dv <= u64::MAX) by (nonlinear_arith)
            requires
                acc <= (u64::MAX - dv) / 10,
                dv <= 9,
        ;
        acc = acc * 10 + dv;
        k = k + 1;
    }
    assert(d.subrange(0, b - a) =~= d);
    Some(acc)
}

fn parse_value(toks: &Vec<Token>, s: &[u8], pos: usize) -> (res: Result<(Value, usize), ParseError>)
    requires
        spans_ok(toks@, s@),
    ensures
        res is Ok ==> {
            let (x, e) = res->Ok_0;
            &&& pos < e <= toks@.len()
            &&& denotes(tv_of(toks, s).subrange(pos as int, e as int), seq![TokV::Val(x.0 as nat)])
        },
        forall|x: Value, e: int|
            #![trigger denotes(tv_of(toks, s).subrange(pos as int, e), seq![TokV::Val(x.0 as nat)])]
            pos <= e <= toks@.len() && denotes(
                tv_of(toks, s).subrange(pos as int, e),
                seq![TokV::Val(x.0 as nat)],
            ) ==> res == Ok::<(Value, usize), ParseError>((x, e as usize)),
{
    let ghost tv = tv_of(toks, s);
    let _n = toks.len();
    match kind_at(toks, pos) {
        Some(TokenKind::Number) => {
            let t = toks[pos];
            assert(token_ok(toks@[pos as int], s@));
            proof {
                lemma_one(tv, pos as int, TokV::Val(0));
            }
            match number_value(s, t.start, t.end) {
                Some(v) => {
                    proof {
                        lemma_one(tv, pos as int, TokV::Val(v as nat));
                        assert forall|x: Value, e: int|
                            pos <= e <= toks@.len() && denotes(
                                tv.subrange(pos as int, e),
                                seq![TokV::Val(x.0 as nat)],
                            ) implies x == Value(v) && e == pos + 1 by {
                            lemma_one(tv, pos as int, TokV::Val(x.0 as nat));
                        }
                    }
                    Ok((Value(v), pos + 1))
                },
                None => {
                    proof {
                        assert forall|x: Value, e: int|
                            pos <= e <= toks@.len() && denotes(
                                tv.subrange(pos as int, e),
                                seq![TokV::Val(x.0 as nat)],
                            ) implies false by {
                            lemma_one(tv, pos as int, TokV::Val(x.0 as nat));
                        }
                    }
                    Err(error_at(toks, s, pos, ParseErrorKind::ValueOverflow))
                },
            }
        },
        _ => {
            proof {
                assert forall|x: Value, e: int|
                    pos <= e <= toks@.len() && denotes(
                        tv.subrange(pos as int, e),
                        seq![TokV::Val(x.0 as nat)],
                    ) implies false by {
                    lemma_one(tv, pos as int, TokV::Val(x.0 as nat));
                }
            }
            Err(error_at(toks, s, pos, ParseErrorKind::UnexpectedCharacter))
        },
    }
}

fn parse_item(toks: &Vec<Token>, s: &[u8], pos: usize) -> (res: Result<(RangeListItem, usize), ParseError>)
    requires
        spans_ok(toks@, s@),
    ensures
        res is Ok ==> {
            let (x, e) = res->Ok_0;
            &&& pos < e <= toks@.len()
            &&& item_wf(x)
            &&& denotes(tv_of(toks, s).subrange(pos as int, e as int), item_toks(x))
        },
        forall|x: RangeListItem, e: int|
            #![trigger denotes(tv_of(toks, s).subrange(pos as int, e), item_toks(x))]
            pos <= e <= toks@.len() && item_wf(x) && denotes(tv_of(toks, s).subrange(pos as int, e), item_toks(x))
                && !at(tv_of(toks, s), e, TokV::DotDot) ==> res == Ok::<(RangeListItem, usize), ParseError>((x, e as usize)),
{
    let ghost tv = tv_of(toks, s);
    let _n = toks.len();
    let (a, e1) = match parse_value(toks, s, pos) {
        Ok(p) => p,
        Err(er) => {
            proof {
                assert forall|x: RangeListItem, e: int|
                    pos <= e <= toks@.len() && denotes(tv.subrange(pos as int, e), item_toks(x)) implies false by {
                    match x {
                        RangeListItem::Value(v) => {
                            assert(denotes(tv.subrange(pos as int, e), seq![TokV::Val(v.0 as nat)]));
                        },
                        RangeListItem::Range(va, vb) => {
                            assert(item_toks(x) =~= seq![TokV::Val(va.0 as nat)] + seq![TokV::DotDot, TokV::Val(vb.0 as nat)]);
                            lemma_split(tv, pos as int, pos + 1, e, seq![TokV::Val(va.0 as nat)], seq![TokV::DotDot, TokV::Val(vb.0 as nat)]);
                            assert(denotes(tv.subrange(pos as int, pos + 1), seq![TokV::Val(va.0 as nat)]));
                        },
                    }
                }
            }
            return Err(er);
        },
    };
    proof {
        // Any tree that the tokens stand for starts with the value just read.
        assert forall|x: RangeListItem, e: int|
            pos <= e <= toks@.len() && denotes(tv.subrange(pos as int, e), item_toks(x)) implies match x {
                RangeListItem::Value(v) => v == a && e == e1,
                RangeListItem::Range(va, vb) => va == a && e1 == pos + 1 && e == pos + 3 && tv[e1 as int] == TokV::DotDot
                    && denotes(tv.subrange(e1 + 1, e), seq![TokV::Val(vb.0 as nat)]),
            } by {
            match x {
                RangeListItem::Value(v) => {
                    assert(denotes(tv.subrange(pos as int, e), seq![TokV::Val(v.0 as nat)]));
                },
                RangeListItem::Range(va, vb) => {
                    assert(item_toks(x) =~= seq![TokV::Val(va.0 as nat)] + (seq![TokV::DotDot] + seq![TokV::Val(vb.0 as nat)]));
                    lemma_split(tv, pos as int, pos + 1, e, seq![TokV::Val(va.0 as nat)], seq![TokV::DotDot] + seq![TokV::Val(vb.0 as nat)]);
                    assert(denotes(tv.subrange(pos as int, pos + 1), seq![TokV::Val(va.0 as nat)]));
                    lemma_split(tv, pos + 1, pos + 2, e, seq![TokV::DotDot], seq![TokV::Val(vb.0 as nat)]);
                    lemma_one(tv, pos + 1, TokV::DotDot);
                },
            }
        }
    }
    if kind_at(toks, e1) == Some(TokenKind::DotDot) {
        assert(tv[e1 as int] == TokV::DotDot);
        let (b, e2) = match parse_value(toks, s, e1 + 1) {
            Ok(p) => p,
            Err(er) => {
                return Err(er);
            },
        };
        if a.0 > b.0 {
            return Err(error_at(toks, s, pos, ParseErrorKind::InvalidRange));
        }
        proof {
            lemma_one(tv, e1 as int, TokV::DotDot);
            lemma_join(tv, e1 as int, e1 + 1, e2 as int, seq![TokV::DotDot], seq![TokV::Val(b.0 as nat)]);
            lemma_join(tv, pos as int, e1 as int, e2 as int, seq![TokV::Val(a.0 as nat)], seq![TokV::DotDot] + seq![TokV::Val(b.0 as nat)]);
            assert(item_toks(RangeListItem::Range(a, b)) =~= seq![TokV::Val(a.0 as nat)] + (seq![TokV::DotDot] + seq![TokV::Val(b.0 as nat)]));
        }
        Ok((RangeListItem::Range(a, b), e2))
    } else {
        Ok((RangeListItem::Value(a), e1))
    }
}

fn parse_items(toks: &Vec<Token>, s: &[u8], pos: usize) -> (res: Result<(Vec<RangeListItem>, usize), ParseError>)
    requires
        spans_ok(toks@, s@),
    ensures
        res is Ok ==> {
            let (x, e) = res->Ok_0;
            &&& pos < e <= toks@.len()
            &&& items_wf(x@)
            &&& denotes(tv_of(toks, s).subrange(pos as int, e as int), items_toks(x@))
        },
        forall|x: Seq<RangeListItem>, e: int|
            #![trigger denotes(tv_of(toks, s).subrange(pos as int, e), items_toks(x))]
            pos <= e <= toks@.len() && items_wf(x) && denotes(tv_of(toks, s).subrange(pos as int, e), items_toks(x))
                && !at(tv_of(toks, s), e, TokV::DotDot) && !at(tv_of(toks, s), e, TokV::Comma)
                ==> res is Ok && res->Ok_0.0@ == x && res->Ok_0.1 == e,
    decreases toks@.len() - pos,
{
    let ghost tv = tv_of(toks, s);
    let _n = toks.len();
    proof {
        assert forall|x: Seq<RangeListItem>, e: int|
            pos <= e <= toks@.len() && items_wf(x) && denotes(tv.subrange(pos as int, e), items_toks(x)) implies {
                let m = pos + item_toks(x[0]).len();
                &&& m <= e
                &&& denotes(tv.subrange(pos as int, m), item_toks(x[0]))
                &&& x.len() > 1 ==> tv[m] == TokV::Comma && denotes(tv.subrange(m + 1, e), items_toks(x.drop_first()))
                    && items_wf(x.drop_first())
                &&& x.len() == 1 ==> m == e
            } by {
            let m = pos + item_toks(x[0]).len();
            assert(item_wf(x[0]));
            if x.len() > 1 {
                lemma_split(tv, pos as int, m, e, item_toks(x[0]), seq![TokV::Comma] + items_toks(x.drop_first()));
                lemma_split(tv, m, m + 1, e, seq![TokV::Comma], items_toks(x.drop_first()));
                lemma_one(tv, m, TokV::Comma);
                assert forall|k: int| 0 <= k < x.drop_first().len() implies item_wf(#[trigger] x.drop_first()[k]) by {
                    assert(item_wf(x[k + 1]));
                }
            }
        }
    }
    let (it, e1) = match parse_item(toks, s, pos) {
        Ok(p) => p,
        Err(er) => {
            proof {
                assert forall|x: Seq<RangeListItem>, e: int|
                    pos <= e <= toks@.len() && items_wf(x) && denotes(tv.subrange(pos as int, e), items_toks(x))
                        && !at(tv, e, TokV::DotDot) implies false by {
                    let m = pos + item_toks(x[0]).len();
                    assert(item_wf(x[0]));
                    assert(denotes(tv.subrange(pos as int, m), item_toks(x[0])));
                }
            }
            return Err(er);
        },
    };
    if kind_at(toks, e1) == Some(TokenKind::Comma) {
        assert(tv[e1 as int] == TokV::Comma);
        let (mut rest, e2) = match parse_items(toks, s, e1 + 1) {
            Ok(p) => p,
            Err(er) => {
                proof {
                    assert forall|x: Seq<RangeListItem>, e: int|
                        pos <= e <= toks@.len() && items_wf(x) && denotes(tv.subrange(pos as int, e), items_toks(x))
                            && !at(tv, e, TokV::DotDot) && !at(tv, e, TokV::Comma) implies false by {
                        let m = pos + item_toks(x[0]).len();
                        assert(item_wf(x[0]));
                        assert(denotes(tv.subrange(pos as int, m), item_toks(x[0])));
                        if x.len() > 1 {
                            assert(denotes(tv.subrange(e1 + 1, e), items_toks(x.drop_first())));
                        }
                    }
                }
                return Err(er);
            },
        };
        let ghost old_rest = rest@;
        rest.insert(0, it);
        proof {
            assert(rest@ =~= seq![it] + old_rest);
            assert(rest@.drop_first() =~= old_rest);
            lemma_one(tv, e1 as int, TokV::Comma);
            lemma_join(tv, e1 as int, e1 + 1, e2 as int, seq![TokV::Comma], items_toks(old_rest));
            lemma_join(tv, pos as int, e1 as int, e2 as int, item_toks(it), seq![TokV::Comma] + items_toks(old_rest));
            assert(items_toks(rest@) =~= item_toks(it) + (seq![TokV::Comma] + items_toks(old_rest)));
            assert forall|k: int| 0 <= k < rest@.len() implies item_wf(#[trigger] rest@[k]) by {
                if k > 0 {
                    assert(rest@[k] == old_rest[k - 1]);
                }
            }
            assert forall|x: Seq<RangeListItem>, e: int|
                pos <= e <= toks@.len() && items_wf(x) && denotes(tv.subrange(pos as int, e), items_toks(x))
                    && !at(tv, e, TokV::DotDot) && !at(tv, e, TokV::Comma) implies rest@ == x && e2 == e by {
                let m = pos + item_toks(x[0]).len();
                assert(item_wf(x[0]));
                assert(denotes(tv.subrange(pos as int, m), item_toks(x[0])));
                assert(denotes(tv.subrange(e1 + 1, e), items_toks(x.drop_first())));
                assert(x =~= seq![x[0]] + x.drop_first());
            }
        }
        Ok((rest, e2))
    } else {
        let v = vec![it];
        proof {
            assert(v@ =~= seq![it]);
            assert forall|x: Seq<RangeListItem>, e: int|
                pos <= e <= toks@.len() && items_wf(x) && denotes(tv.subrange(pos as int, e), items_toks(x))
                    && !at(tv, e, TokV::DotDot) implies v@ == x && e1 == e by {
                let m = pos + item_toks(x[0]).len();
                assert(item_wf(x[0]));
                assert(denotes(tv.subrange(pos as int, m), item_toks(x[0])));
                assert(x =~= seq![x[0]]);
            }
        }
        Ok((v, e1))
    }
}

fn parse_expr(toks: &Vec<Token>, s: &[u8], pos: usize) -> (res: Result<(Expression, usize), ParseError>)
    requires
        spans_ok(toks@, s@),
    ensures
        res is Ok ==> {
            let (x, e) = res->Ok_0;
            &&& pos < e <= toks@.len()
            &&& denotes(tv_of(toks, s).subrange(pos as int, e as int), expr_toks(x))
        },
        forall|x: Expression, e: int|
            #![trigger denotes(tv_of(toks, s).subrange(pos as int, e), expr_toks(x))]
            pos <= e <= toks@.len() && denotes(tv_of(toks, s).subrange(pos as int, e), expr_toks(x))
                && !at(tv_of(toks, s), e, TokV::Percent) ==> res == Ok::<(Expression, usize), ParseError>((x, e as usize)),
{
    let ghost tv = tv_of(toks, s);
    let _n = toks.len();
    proof {
        assert forall|x: Expression, e: int|
            pos <= e <= toks@.len() && denotes(tv.subrange(pos as int, e), expr_toks(x)) implies {
                &&& pos < e
                &&& tv[pos as int] == TokV::Op(x.operand)
                &&& x.modulus is None ==> e == pos + 1
                &&& x.modulus is Some ==> e == pos + 3 && tv[pos + 1] == TokV::Percent && denotes(
                    tv.subrange(pos + 2, e),
                    seq![TokV::Val((x.modulus->0).0 as nat)],
                )
            } by {
            assert(tok_matches(tv.subrange(pos as int, e)[0], expr_toks(x)[0]));
            if x.modulus is Some {
                let v = x.modulus->0;
                assert(expr_toks(x) =~= seq![TokV::Op(x.operand), TokV::Percent] + seq![TokV::Val(v.0 as nat)]);
                lemma_split(tv, pos as int, pos + 2, e, seq![TokV::Op(x.operand), TokV::Percent], seq![TokV::Val(v.0 as nat)]);
                assert(tok_matches(tv.subrange(pos as int, pos + 2)[1], TokV::Percent));
            }
        }
    }
    match kind_at(toks, pos) {
        Some(TokenKind::Operand(o)) => {
            assert(tv[pos as int] == TokV::Op(o));
            if kind_at(toks, pos + 1) == Some(TokenKind::Percent) {
                assert(tv[pos + 1] == TokV::Percent);
                let (m, e2) = match parse_value(toks, s, pos + 2) {
                    Ok(p) => p,
                    Err(er) => {
                        return Err(er);
                    },
                };
                let x = Expression { operand: o, modulus: Some(m) };
                proof {
                    assert(tv.subrange(pos as int, pos + 2) =~= seq![TokV::Op(o), TokV::Percent]);
                    lemma_join(tv, pos as int, pos + 2, e2 as int, seq![TokV::Op(o), TokV::Percent], seq![TokV::Val(m.0 as nat)]);
                    assert(expr_toks(x) =~= seq![TokV::Op(o), TokV::Percent] + seq![TokV::Val(m.0 as nat)]);
                }
                Ok((x, e2))
            } else {
                let x = Expression { operand: o, modulus: None };
                proof {
                    lemma_one(tv, pos as int, TokV::Op(o));
                }
                Ok((x, pos + 1))
            }
        },
        _ => Err(error_at(toks, s, pos, ParseErrorKind::UnexpectedCharacter)),
    }
}

fn parse_relation(toks: &Vec<Token>, s: &[u8], pos: usize) -> (res: Result<(Relation, usize), ParseError>)
    requires
        spans_ok(toks@, s@),
    ensures
        res is Ok ==> {
            let (x, e) = res->Ok_0;
            &&& pos < e <= toks@.len()
            &&& relation_wf(x@)
            &&& denotes(tv_of(toks, s).subrange(pos as int, e as int), relation_toks(x@))
        },
        forall|x: RelationV, e: int|
            #![trigger denotes(tv_of(toks, s).subrange(pos as int, e), relation_toks(x))]
            pos <= e <= toks@.len() && relation_wf(x) && denotes(tv_of(toks, s).subrange(pos as int, e), relation_toks(x))
                && !at(tv_of(toks, s), e, TokV::DotDot) && !at(tv_of(toks, s), e, TokV::Comma)
                ==> res is Ok && res->Ok_0.0@ == x && res->Ok_0.1 == e,
{
    let ghost tv = tv_of(toks, s);
    let _n = toks.len();
    proof {
        assert forall|x: RelationV, e: int|
            pos <= e <= toks@.len() && denotes(tv.subrange(pos as int, e), relation_toks(x)) implies {
                let m = pos + expr_toks(x.expression).len();
                &&& m < e
                &&& denotes(tv.subrange(pos as int, m), expr_toks(x.expression))
                &&& tv[m] == operator_tok(x.operator)
                &&& denotes(tv.subrange(m + 1, e), items_toks(x.range_list))
            } by {
            let m = pos + expr_toks(x.expression).len();
            assert(relation_toks(x) =~= expr_toks(x.expression) + (seq![operator_tok(x.operator)] + items_toks(x.range_list)));
            lemma_split(tv, pos as int, m, e, expr_toks(x.expression), seq![operator_tok(x.operator)] + items_toks(x.range_list));
            lemma_split(tv, m, m + 1, e, seq![operator_tok(x.operator)], items_toks(x.range_list));
            lemma_one(tv, m, operator_tok(x.operator));
        }
    }
    let (ex, e1) = match parse_expr(toks, s, pos) {
        Ok(p) => p,
        Err(er) => {
            return Err(er);
        },
    };
    let op = match kind_at(toks, e1) {
        Some(TokenKind::Eq) => Operator::Eq,
        Some(TokenKind::NotEq) => Operator::NotEq,
        _ => {
            return Err(error_at(toks, s, e1, ParseErrorKind::UnexpectedCharacter));
        },
    };
    assert(tv[e1 as int] == operator_tok(op));
    let (items, e2) = match parse_items(toks, s, e1 + 1) {
        Ok(p) => p,
        Err(er) => {
            return Err(er);
        },
    };
    let x = Relation { expression: ex, operator: op, range_list: RangeList(items) };
    proof {
        lemma_one(tv, e1 as int, operator_tok(op));
        lemma_join(tv, e1 as int, e1 + 1, e2 as int, seq![operator_tok(op)], items_toks(x@.range_list));
        lemma_join(tv, pos as int, e1 as int, e2 as int, expr_toks(ex), seq![operator_tok(op)] + items_toks(x@.range_list));
        assert(relation_toks(x@) =~= expr_toks(ex) + (seq![operator_tok(op)] + items_toks(x@.range_list)));
    }
    Ok((x, e2))
}

pub open spec fn rels_view(v: Seq<Relation>) -> Seq<RelationV> {
    v.map_values(|r: Relation| r@)
}

pub open spec fn ands_view(v: Seq<AndCondition>) -> Seq<Seq<RelationV>> {
    v.map_values(|a: AndCondition| a@)
}

fn parse_and(toks: &Vec<Token>, s: &[u8], pos: usize) -> (res: Result<(Vec<Relation>, usize), ParseError>)
    requires
        spans_ok(toks@, s@),
    ensures
        res is Ok ==> {
            let (x, e) = res->Ok_0;
            &&& pos < e <= toks@.len()
            &&& and_wf(rels_view(x@))
            &&& denotes(tv_of(toks, s).subrange(pos as int, e as int), and_toks(rels_view(x@)))
        },
        forall|x: Seq<RelationV>, e: int|
            #![trigger denotes(tv_of(toks, s).subrange(pos as int, e), and_toks(x))]
            pos <= e <= toks@.len() && and_wf(x) && denotes(tv_of(toks, s).subrange(pos as int, e), and_toks(x))
                && !at(tv_of(toks, s), e, TokV::DotDot) && !at(tv_of(toks, s), e, TokV::Comma)
                && !at(tv_of(toks, s), e, TokV::And)
                ==> res is Ok && rels_view(res->Ok_0.0@) == x && res->Ok_0.1 == e,
    decreases toks@.len() - pos,
{
    let ghost tv = tv_of(toks, s);
    let _n = toks.len();
    proof {
        assert forall|x: Seq<RelationV>, e: int|
            pos <= e <= toks@.len() && and_wf(x) && denotes(tv.subrange(pos as int, e), and_toks(x)) implies {
                let m = pos + relation_toks(x[0]).len();
                &&& m <= e
                &&& relation_wf(x[0])
                &&& denotes(tv.subrange(pos as int, m), relation_toks(x[0]))
                &&& x.len() > 1 ==> tv[m] == TokV::And && denotes(tv.subrange(m + 1, e), and_toks(x.drop_first()))
                    && and_wf(x.drop_first())
                &&& x.len() == 1 ==> m == e
            } by {
            let m = pos + relation_toks(x[0]).len();
            assert(relation_wf(x[0]));
            if x.len() > 1 {
                lemma_split(tv, pos as int, m, e, relation_toks(x[0]), seq![TokV::And] + and_toks(x.drop_first()));
                lemma_split(tv, m, m + 1, e, seq![TokV::And], and_toks(x.drop_first()));
                lemma_one(tv, m, TokV::And);
                assert forall|k: int| 0 <= k < x.drop_first().len() implies relation_wf(#[trigger] x.drop_first()[k]) by {
                    assert(relation_wf(x[k + 1]));
                }
            }
        }
    }
    let (r, e1) = match parse_relation(toks, s, pos) {
        Ok(p) => p,
        Err(er) => {
            return Err(er);
        },
    };
    if kind_at(toks, e1) == Some(TokenKind::And) {
        assert(tv[e1 as int] == TokV::And);
        let (mut rest, e2) = match parse_and(toks, s, e1 + 1) {
            Ok(p) => p,
            Err(er) => {
                proof {
                    assert forall|x: Seq<RelationV>, e: int|
                        pos <= e <= toks@.len() && and_wf(x) && denotes(tv.subrange(pos as int, e), and_toks(x))
                            && !at(tv, e, TokV::DotDot) && !at(tv, e, TokV::Comma) && !at(tv, e, TokV::And) implies false by {
                        let m = pos + relation_toks(x[0]).len();
                        if x.len() > 1 {
                            assert(denotes(tv.subrange(e1 + 1, e), and_toks(x.drop_first())));
                        }
                    }
                }
                return Err(er);
            },
        };
        let ghost old_rest = rest@;
        rest.insert(0, r);
        proof {
            assert(rels_view(rest@) =~= seq![r@] + rels_view(old_rest));
            assert(rels_view(rest@).drop_first() =~= rels_view(old_rest));
            lemma_one(tv, e1 as int, TokV::And);
            lemma_join(tv, e1 as int, e1 + 1, e2 as int, seq![TokV::And], and_toks(rels_view(old_rest)));
            lemma_join(tv, pos as int, e1 as int, e2 as int, relation_toks(r@), seq![TokV::And] + and_toks(rels_view(old_rest)));
            assert(and_toks(rels_view(rest@)) =~= relation_toks(r@) + (seq![TokV::And] + and_toks(rels_view(old_rest))));
            assert forall|k: int| 0 <= k < rels_view(rest@).len() implies relation_wf(#[trigger] rels_view(rest@)[k]) by {
                if k > 0 {
                    assert(rels_view(rest@)[k] == rels_view(old_rest)[k - 1]);
                }
            }
            assert forall|x: Seq<RelationV>, e: int|
                pos <= e <= toks@.len() && and_wf(x) && denotes(tv.subrange(pos as int, e), and_toks(x))
                    && !at(tv, e, TokV::DotDot) && !at(tv, e, TokV::Comma) && !at(tv, e, TokV::And)
                    implies rels_view(rest@) == x && e2 == e by {
                let m = pos + relation_toks(x[0]).len();
                assert(denotes(tv.subrange(pos as int, m), relation_toks(x[0])));
                assert(denotes(tv.subrange(e1 + 1, e), and_toks(x.drop_first())));
                assert(x =~= seq![x[0]] + x.drop_first());
            }
        }
        Ok((rest, e2))
    } else {
        let v = vec![r];
        proof {
            assert(rels_view(v@) =~= seq![r@]);
            assert forall|x: Seq<RelationV>, e: int|
                pos <= e <= toks@.len() && and_wf(x) && denotes(tv.subrange(pos as int, e), and_toks(x))
                    && !at(tv, e, TokV::DotDot) && !at(tv, e, TokV::Comma) && !at(tv, e, TokV::And)
                    implies rels_view(v@) == x && e1 == e by {
                let m = pos + relation_toks(x[0]).len();
                assert(denotes(tv.subrange(pos as int, m), relation_toks(x[0])));
                assert(x =~= seq![x[0]]);
            }
        }
        Ok((v, e1))
    }
}

fn parse_or(toks: &Vec<Token>, s: &[u8], pos: usize) -> (res: Result<(Vec<AndCondition>, usize), ParseError>)
    requires
        spans_ok(toks@, s@),
    ensures
        res is Ok ==> {
            let (x, e) = res->Ok_0;
            &&& pos < e <= toks@.len()
            &&& ands_view(x@).len() > 0
            &&& cond_wf(ands_view(x@))
            &&& denotes(tv_of(toks, s).subrange(pos as int, e as int), cond_toks(ands_view(x@)))
        },
        forall|x: Seq<Seq<RelationV>>, e: int|
            #![trigger denotes(tv_of(toks, s).subrange(pos as int, e), cond_toks(x))]
            pos <= e <= toks@.len() && x.len() > 0 && cond_wf(x) && denotes(tv_of(toks, s).subrange(pos as int, e), cond_toks(x))
                && !at(tv_of(toks, s), e, TokV::DotDot) && !at(tv_of(toks, s), e, TokV::Comma)
                && !at(tv_of(toks, s), e, TokV::And) && !at(tv_of(toks, s), e, TokV::Or)
                ==> res is Ok && ands_view(res->Ok_0.0@) == x && res->Ok_0.1 == e,
    decreases toks@.len() - pos,
{
    let ghost tv = tv_of(toks, s);
    let _n = toks.len();
    proof {
        assert forall|x: Seq<Seq<RelationV>>, e: int|
            pos <= e <= toks@.len() && x.len() > 0 && cond_wf(x) && denotes(tv.subrange(pos as int, e), cond_toks(x)) implies {
                let m = pos + and_toks(x[0]).len();
                &&& m <= e
                &&& and_wf(x[0])
                &&& denotes(tv.subrange(pos as int, m), and_toks(x[0]))
                &&& x.len() > 1 ==> tv[m] == TokV::Or && denotes(tv.subrange(m + 1, e), cond_toks(x.drop_first()))
                    && cond_wf(x.drop_first())
                &&& x.len() == 1 ==> m == e
            } by {
            let m = pos + and_toks(x[0]).len();
            assert(and_wf(x[0]));
            if x.len() > 1 {
                lemma_split(tv, pos as int, m, e, and_toks(x[0]), seq![TokV::Or] + cond_toks(x.drop_first()));
                lemma_split(tv, m, m + 1, e, seq![TokV::Or], cond_toks(x.drop_first()));
                lemma_one(tv, m, TokV::Or);
                assert forall|k: int| 0 <= k < x.drop_first().len() implies and_wf(#[trigger] x.drop_first()[k]) by {
                    assert(and_wf(x[k + 1]));
                }
            }
        }
    }
    let (a, e1) = match parse_and(toks, s, pos) {
        Ok(p) => p,
        Err(er) => {
            return Err(er);
        },
    };
    let a = AndCondition(a);
    if kind_at(toks, e1) == Some(TokenKind::Or) {
        assert(tv[e1 as int] == TokV::Or);
        let (mut rest, e2) = match parse_or(toks, s, e1 + 1) {
            Ok(p) => p,
            Err(er) => {
                proof {
                    assert forall|x: Seq<Seq<RelationV>>, e: int|
                        pos <= e <= toks@.len() && x.len() > 0 && cond_wf(x) && denotes(tv.subrange(pos as int, e), cond_toks(x))
                            && !at(tv, e, TokV::DotDot) && !at(tv, e, TokV::Comma) && !at(tv, e, TokV::And)
                            && !at(tv, e, TokV::Or) implies false by {
                        let m = pos + and_toks(x[0]).len();
                        if x.len() > 1 {
                            assert(denotes(tv.subrange(e1 + 1, e), cond_toks(x.drop_first())));
                        }
                    }
                }
                return Err(er);
            },
        };
        let ghost old_rest = rest@;
        rest.insert(0, a);
        proof {
            assert(ands_view(rest@) =~= seq![a@] + ands_view(old_rest));
            assert(ands_view(rest@).drop_first() =~= ands_view(old_rest));
            lemma_one(tv, e1 as int, TokV::Or);
            lemma_join(tv, e1 as int, e1 + 1, e2 as int, seq![TokV::Or], cond_toks(ands_view(old_rest)));
            lemma_join(tv, pos as int, e1 as int, e2 as int, and_toks(a@), seq![TokV::Or] + cond_toks(ands_view(old_rest)));
            assert(cond_toks(ands_view(rest@)) =~= and_toks(a@) + (seq![TokV::Or] + cond_toks(ands_view(old_rest))));
            assert forall|k: int| 0 <= k < ands_view(rest@).len() implies and_wf(#[trigger] ands_view(rest@)[k]) by {
                if k > 0 {
                    assert(ands_view(rest@)[k] == ands_view(old_rest)[k - 1]);
                }
            }
            assert forall|x: Seq<Seq<RelationV>>, e: int|
                pos <= e <= toks@.len() && x.len() > 0 && cond_wf(x) && denotes(tv.subrange(pos as int, e), cond_toks(x))
                    && !at(tv, e, TokV::DotDot) && !at(tv, e, TokV::Comma) && !at(tv, e, TokV::And)
                    && !at(tv, e, TokV::Or) implies ands_view(rest@) == x && e2 == e by {
                let m = pos + and_toks(x[0]).len();
                assert(denotes(tv.subrange(pos as int, m), and_toks(x[0])));
                assert(denotes(tv.subrange(e1 + 1, e), cond_toks(x.drop_first())));
                assert(x =~= seq![x[0]] + x.drop_first());
            }
        }
        Ok((rest, e2))
    } else {
        let v = vec![a];
        proof {
            assert(ands_view(v@) =~= seq![a@]);
            assert forall|x: Seq<Seq<RelationV>>, e: int|
                pos <= e <= toks@.len() && x.len() > 0 && cond_wf(x) && denotes(tv.subrange(pos as int, e), cond_toks(x))
                    && !at(tv, e, TokV::DotDot) && !at(tv, e, TokV::Comma) && !at(tv, e, TokV::And)
                    && !at(tv, e, TokV::Or) implies ands_view(v@) == x && e1 == e by {
                let m = pos + and_toks(x[0]).len();
                assert(denotes(tv.subrange(pos as int, m), and_toks(x[0])));
                assert(x =~= seq![x[0]]);
            }
        }
        Ok((v, e1))
    }
}

/// The condition ends at `e`: at the end of the input or where the samples start.
pub open spec fn cond_end(tv: Seq<TokV>, e: int) -> bool {
    e == tv.len() || at(tv, e, TokV::AtInteger) || at(tv, e, TokV::AtDecimal)
}

proof fn lemma_cond_first(x: Seq<Seq<RelationV>>)
    requires
        x.len() > 0,
        cond_wf(x),
    ensures
        cond_toks(x).len() > 0,
        cond_toks(x)[0] == TokV::Op(x[0][0].expression.operand),
{
    let a = x[0];
    assert(and_wf(a));
    let r = a[0];
    assert(relation_toks(r)[0] == TokV::Op(r.expression.operand));
    assert(and_toks(a)[0] == TokV::Op(r.expression.operand));
}

fn parse_condition_at(toks: &Vec<Token>, s: &[u8], pos: usize) -> (res: Result<(Condition, usize), ParseError>)
    requires
        spans_ok(toks@, s@),
        pos <= toks@.len(),
    ensures
        res is Ok ==> {
            let (x, e) = res->Ok_0;
            &&& pos <= e <= toks@.len()
            &&& cond_wf(x@)
            &&& denotes(tv_of(toks, s).subrange(pos as int, e as int), cond_toks(x@))
        },
        forall|x: Seq<Seq<RelationV>>, e: int|
            #![trigger denotes(tv_of(toks, s).subrange(pos as int, e), cond_toks(x))]
            pos <= e <= toks@.len() && cond_wf(x) && denotes(tv_of(toks, s).subrange(pos as int, e), cond_toks(x))
                && cond_end(tv_of(toks, s), e) ==> res is Ok && res->Ok_0.0@ == x && res->Ok_0.1 == e,
{
    let ghost tv = tv_of(toks, s);
    let _n = toks.len();
    proof {
        assert forall|x: Seq<Seq<RelationV>>, e: int|
            pos <= e <= toks@.len() && cond_wf(x) && denotes(tv.subrange(pos as int, e), cond_toks(x))
                && x.len() > 0 implies pos < e && tv[pos as int] == TokV::Op(x[0][0].expression.operand) by {
            lemma_cond_first(x);
            assert(tok_matches(tv.subrange(pos as int, e)[0], cond_toks(x)[0]));
        }
    }
    match kind_at(toks, pos) {
        None | Some(TokenKind::AtInteger) | Some(TokenKind::AtDecimal) => {
            let c = Condition(Vec::new());
            proof {
                assert(c@ =~= Seq::<Seq<RelationV>>::empty());
                assert(tv.subrange(pos as int, pos as int) =~= Seq::<TokV>::empty());
                assert forall|x: Seq<Seq<RelationV>>, e: int|
                    pos <= e <= toks@.len() && cond_wf(x) && denotes(tv.subrange(pos as int, e), cond_toks(x))
                        && cond_end(tv, e) implies c@ == x && pos == e by {
                    if x.len() > 0 {
                        assert(tv[pos as int] == TokV::Op(x[0][0].expression.operand));
                    }
                }
            }
            Ok((c, pos))
        },
        _ => {
            let (ands, e) = match parse_or(toks, s, pos) {
                Ok(p) => p,
                Err(er) => {
                    proof {
                        assert forall|x: Seq<Seq<RelationV>>, e: int|
                            pos <= e <= toks@.len() && cond_wf(x) && denotes(tv.subrange(pos as int, e), cond_toks(x))
                                && cond_end(tv, e) implies x.len() > 0 by {
                            if x.len() == 0 {
                                assert(e == pos);
                            }
                        }
                    }
                    return Err(er);
                },
            };
            let c = Condition(ands);
            proof {
                assert forall|x: Seq<Seq<RelationV>>, e2: int|
                    pos <= e2 <= toks@.len() && cond_wf(x) && denotes(tv.subrange(pos as int, e2), cond_toks(x))
                        && cond_end(tv, e2) implies c@ == x && e == e2 by {
                    if x.len() == 0 {
                        assert(e2 == pos);
                    }
                }
            }
            Ok((c, e))
        },
    }
}

pub open spec fn ranges_view(v: Seq<SampleRange>) -> Seq<SampleRangeV> {
    v.map_values(|r: SampleRange| r@)
}

/// Relies on `String::from_utf8`: ASCII bytes are valid UTF-8, and the string
/// holds the characters with those codes, in order.
#[verifier::external_body]
fn ascii_string(b: Vec<u8>) -> (r: String)
    requires
        forall|k: int| 0 <= k < b@.len() ==> b@[k] < 128,
    ensures
        r@ == chars_of(b@),
{
    match String::from_utf8(b) {
        Ok(t) => t,
        Err(_) => String::new(),
    }
}

fn copy_bytes(s: &[u8], a: usize, b: usize) -> (v: Vec<u8>)
    requires
        a <= b <= s@.len(),
    ensures
        v@ == s@.subrange(a as int, b as int),
{
    let mut v: Vec<u8> = Vec::new();
    let mut k: usize = a;
    while k < b
        invariant
            a <= k <= b <= s@.len(),
            v@ == s@.subrange(a as int, k as int),
        decreases b - k,
    {
        v.push(s[k]);
        k = k + 1;
        assert(v@ =~= s@.subrange(a as int, k as int));
    }
    v
}

pub(crate) proof fn lemma_dot_at(s: Seq<char>)
    requires
        crate::operands::dot_pos(s) < s.len(),
    ensures
        s[crate::operands::dot_pos(s) as int] == '.',
    decreases s.len(),
{
    if s[0] != '.' {
        lemma_dot_at(s.drop_first());
    }
}

proof fn lemma_numeral_ascii(x: Seq<u8>)
    requires
        numeral_wf(chars_of(x)),
    ensures
        forall|k: int| 0 <= k < x.len() ==> x[k] < 128,
{
    let c = chars_of(x);
    let p = crate::operands::dot_pos(c) as int;
    assert forall|k: int| 0 <= k < x.len() implies x[k] < 128 by {
        assert(c[k] == x[k] as char);
        if k < p {
            assert(is_digit_char(c.subrange(0, p)[k]));
        } else if k == p {
            lemma_dot_at(c);
        } else {
            assert(is_digit_char(c.subrange(p + 1, c.len() as int)[k - p - 1]));
        }
    }
}

proof fn lemma_digits_numeral(c: Seq<char>)
    requires
        c.len() > 0,
        all_digit_chars(c),
    ensures
        numeral_wf(c),
{
    assert forall|q: int| 0 <= q < c.len() implies c[q] != '.' by {
        assert(is_digit_char(c[q]));
    }
    crate::operands::lemma_dot_pos(c, c.len() as int);
    assert(c.subrange(0, c.len() as int) =~= c);
}

fn parse_literal(toks: &Vec<Token>, s: &[u8], pos: usize) -> (res: Result<(DecimalValue, usize), ParseError>)
    requires
        spans_ok(toks@, s@),
    ensures
        res is Ok ==> {
            let (x, e) = res->Ok_0;
            &&& pos < e <= toks@.len()
            &&& numeral_wf(x@)
            &&& denotes(tv_of(toks, s).subrange(pos as int, e as int), seq![TokV::Lit(x@)])
        },
        forall|x: Seq<char>, e: int|
            #![trigger denotes(tv_of(toks, s).subrange(pos as int, e), seq![TokV::Lit(x)])]
            pos <= e <= toks@.len() && denotes(tv_of(toks, s).subrange(pos as int, e), seq![TokV::Lit(x)])
                ==> res is Ok && res->Ok_0.0@ == x && res->Ok_0.1 == e,
{
    let ghost tv = tv_of(toks, s);
    let _n = toks.len();
    proof {
        assert forall|x: Seq<char>, e: int|
            pos <= e <= toks@.len() && denotes(tv.subrange(pos as int, e), seq![TokV::Lit(x)]) implies e == pos + 1
                && tok_matches(tv[pos as int], TokV::Lit(x)) by {
            lemma_one(tv, pos as int, TokV::Lit(x));
        }
    }
    match kind_at(toks, pos) {
        Some(TokenKind::Number) | Some(TokenKind::Decimal) => {
            let t = toks[pos];
            assert(token_ok(toks@[pos as int], s@));
            let bytes = copy_bytes(s, t.start, t.end);
            proof {
                if t.kind == TokenKind::Number {
                    lemma_digits_numeral(chars_of(bytes@));
                }
                lemma_numeral_ascii(bytes@);
            }
            let x = DecimalValue(ascii_string(bytes));
            proof {
                lemma_one(tv, pos as int, TokV::Lit(x@));
            }
            Ok((x, pos + 1))
        },
        _ => Err(error_at(toks, s, pos, ParseErrorKind::UnexpectedCharacter)),
    }
}

fn parse_sample_range(toks: &Vec<Token>, s: &[u8], pos: usize) -> (res: Result<(SampleRange, usize), ParseError>)
    requires
        spans_ok(toks@, s@),
    ensures
        res is Ok ==> {
            let (x, e) = res->Ok_0;
            &&& pos < e <= toks@.len()
            &&& sample_range_wf(x@)
            &&& denotes(tv_of(toks, s).subrange(pos as int, e as int), sample_range_toks(x@))
        },
        forall|x: SampleRangeV, e: int|
            #![trigger denotes(tv_of(toks, s).subrange(pos as int, e), sample_range_toks(x))]
            pos <= e <= toks@.len() && denotes(tv_of(toks, s).subrange(pos as int, e), sample_range_toks(x))
                && !at(tv_of(toks, s), e, TokV::Tilde) ==> res is Ok && res->Ok_0.0@ == x && res->Ok_0.1 == e,
{
    let ghost tv = tv_of(toks, s);
    let _n = toks.len();
    proof {
        assert forall|x: SampleRangeV, e: int|
            pos <= e <= toks@.len() && denotes(tv.subrange(pos as int, e), sample_range_toks(x)) implies {
                &&& pos < e
                &&& denotes(tv.subrange(pos as int, pos + 1), seq![TokV::Lit(x.lower)])
                &&& x.upper is None ==> e == pos + 1
                &&& x.upper is Some ==> e == pos + 3 && tv[pos + 1] == TokV::Tilde && denotes(
                    tv.subrange(pos + 2, e),
                    seq![TokV::Lit(x.upper->0)],
                )
            } by {
            if x.upper is Some {
                let u = x.upper->0;
                assert(sample_range_toks(x) =~= seq![TokV::Lit(x.lower)] + (seq![TokV::Tilde] + seq![TokV::Lit(u)]));
                lemma_split(tv, pos as int, pos + 1, e, seq![TokV::Lit(x.lower)], seq![TokV::Tilde] + seq![TokV::Lit(u)]);
                lemma_split(tv, pos + 1, pos + 2, e, seq![TokV::Tilde], seq![TokV::Lit(u)]);
                lemma_one(tv, pos + 1, TokV::Tilde);
            } else {
                assert(tv.subrange(pos as int, e) =~= tv.subrange(pos as int, pos + 1));
            }
        }
    }
    let (lo, e1) = match parse_literal(toks, s, pos) {
        Ok(p) => p,
        Err(er) => {
            return Err(er);
        },
    };
    if kind_at(toks, e1) == Some(TokenKind::Tilde) {
        assert(tv[e1 as int] == TokV::Tilde);
        let (hi, e2) = match parse_literal(toks, s, e1 + 1) {
            Ok(p) => p,
            Err(er) => {
                return Err(er);
            },
        };
        let x = SampleRange { lower_val: lo, upper_val: Some(hi) };
        proof {
            lemma_one(tv, e1 as int, TokV::Tilde);
            lemma_join(tv, e1 as int, e1 + 1, e2 as int, seq![TokV::Tilde], seq![TokV::Lit(hi@)]);
            lemma_join(tv, pos as int, e1 as int, e2 as int, seq![TokV::Lit(lo@)], seq![TokV::Tilde] + seq![TokV::Lit(hi@)]);
            assert(sample_range_toks(x@) =~= seq![TokV::Lit(lo@)] + (seq![TokV::Tilde] + seq![TokV::Lit(hi@)]));
        }
        Ok((x, e2))
    } else {
        let x = SampleRange { lower_val: lo, upper_val: None };
        Ok((x, e1))
    }
}

proof fn lemma_ranges_first(y: Seq<SampleRangeV>, ell: bool)
    requires
        y.len() > 0,
    ensures
        sample_ranges_toks(y, ell).len() > 0,
        sample_ranges_toks(y, ell)[0] == TokV::Lit(y[0].lower),
{
    assert(sample_range_toks(y[0])[0] == TokV::Lit(y[0].lower));
}

fn parse_sample_list(toks: &Vec<Token>, s: &[u8], pos: usize) -> (res: Result<(SampleList, usize), ParseError>)
    requires
        spans_ok(toks@, s@),
    ensures
        res is Ok ==> {
            let (x, e) = res->Ok_0;
            &&& pos < e <= toks@.len()
            &&& sample_ranges_wf(x@.ranges)
            &&& denotes(tv_of(toks, s).subrange(pos as int, e as int), sample_ranges_toks(x@.ranges, x@.ellipsis))
        },
        forall|x: SampleListV, e: int|
            #![trigger denotes(tv_of(toks, s).subrange(pos as int, e), sample_ranges_toks(x.ranges, x.ellipsis))]
            pos <= e <= toks@.len() && sample_ranges_wf(x.ranges) && denotes(
                tv_of(toks, s).subrange(pos as int, e),
                sample_ranges_toks(x.ranges, x.ellipsis),
            ) && !at(tv_of(toks, s), e, TokV::Tilde) && !at(tv_of(toks, s), e, TokV::Comma)
                ==> res is Ok && res->Ok_0.0@ == x && res->Ok_0.1 == e,
    decreases toks@.len() - pos,
{
    let ghost tv = tv_of(toks, s);
    let _n = toks.len();
    proof {
        assert forall|x: SampleListV, e: int|
            pos <= e <= toks@.len() && sample_ranges_wf(x.ranges) && denotes(
                tv.subrange(pos as int, e),
                sample_ranges_toks(x.ranges, x.ellipsis),
            ) implies {
                let m = pos + sample_range_toks(x.ranges[0]).len();
                &&& m <= e
                &&& denotes(tv.subrange(pos as int, m), sample_range_toks(x.ranges[0]))
                &&& x.ranges.len() == 1 && !x.ellipsis ==> m == e
                &&& x.ranges.len() == 1 && x.ellipsis ==> e == m + 2 && tv[m] == TokV::Comma && tv[m + 1]
                    == TokV::Ellipsis
                &&& x.ranges.len() > 1 ==> tv[m] == TokV::Comma && tv[m + 1] != TokV::Ellipsis && denotes(
                    tv.subrange(m + 1, e),
                    sample_ranges_toks(x.ranges.drop_first(), x.ellipsis),
                ) && sample_ranges_wf(x.ranges.drop_first())
            } by {
            let r0 = x.ranges[0];
            let m = pos + sample_range_toks(r0).len();
            if x.ranges.len() == 1 {
                if x.ellipsis {
                    lemma_split(tv, pos as int, m, e, sample_range_toks(r0), seq![TokV::Comma, TokV::Ellipsis]);
                    assert(tok_matches(tv.subrange(m, e)[0], TokV::Comma));
                    assert(tok_matches(tv.subrange(m, e)[1], TokV::Ellipsis));
                } else {
                    assert(sample_ranges_toks(x.ranges, x.ellipsis) =~= sample_range_toks(r0));
                }
            } else {
                let rest = x.ranges.drop_first();
                lemma_split(tv, pos as int, m, e, sample_range_toks(r0), seq![TokV::Comma] + sample_ranges_toks(rest, x.ellipsis));
                lemma_split(tv, m, m + 1, e, seq![TokV::Comma], sample_ranges_toks(rest, x.ellipsis));
                lemma_one(tv, m, TokV::Comma);
                lemma_ranges_first(rest, x.ellipsis);
                assert(tok_matches(tv.subrange(m + 1, e)[0], sample_ranges_toks(rest, x.ellipsis)[0]));
                assert forall|k: int| 0 <= k < rest.len() implies sample_range_wf(#[trigger] rest[k]) by {
                    assert(sample_range_wf(x.ranges[k + 1]));
                }
            }
        }
    }
    let (r, e1) = match parse_sample_range(toks, s, pos) {
        Ok(p) => p,
        Err(er) => {
            return Err(er);
        },
    };
    if kind_at(toks, e1) == Some(TokenKind::Comma) {
        assert(tv[e1 as int] == TokV::Comma);
        if kind_at(toks, e1 + 1) == Some(TokenKind::Ellipsis) {
            assert(tv[e1 + 1] == TokV::Ellipsis);
            let x = SampleList { sample_ranges: vec![r], ellipsis: true };
            proof {
                assert(ranges_view(x.sample_ranges@) =~= seq![r@]);
                assert(tv.subrange(e1 as int, e1 + 2) =~= seq![TokV::Comma, TokV::Ellipsis]);
                lemma_join(tv, pos as int, e1 as int, e1 + 2, sample_range_toks(r@), seq![TokV::Comma, TokV::Ellipsis]);
                assert forall|y: SampleListV, e: int|
                    pos <= e <= toks@.len() && sample_ranges_wf(y.ranges) && denotes(
                        tv.subrange(pos as int, e),
                        sample_ranges_toks(y.ranges, y.ellipsis),
                    ) && !at(tv, e, TokV::Tilde) && !at(tv, e, TokV::Comma) implies x@ == y && e == e1 + 2 by {
                    let m = pos + sample_range_toks(y.ranges[0]).len();
                    assert(sample_range_wf(y.ranges[0]));
                    assert(denotes(tv.subrange(pos as int, m), sample_range_toks(y.ranges[0])));
                    assert(y.ranges =~= seq![y.ranges[0]]);
                }
            }
            Ok((x, e1 + 2))
        } else {
            let (mut rest, e2) = match parse_sample_list(toks, s, e1 + 1) {
                Ok(p) => p,
                Err(er) => {
                    proof {
                        assert forall|y: SampleListV, e: int|
                            pos <= e <= toks@.len() && sample_ranges_wf(y.ranges) && denotes(
                                tv.subrange(pos as int, e),
                                sample_ranges_toks(y.ranges, y.ellipsis),
                            ) && !at(tv, e, TokV::Tilde) && !at(tv, e, TokV::Comma) implies false by {
                            let m = pos + sample_range_toks(y.ranges[0]).len();
                            assert(sample_range_wf(y.ranges[0]));
                            assert(denotes(tv.subrange(pos as int, m), sample_range_toks(y.ranges[0])));
                            let y2 = SampleListV { ranges: y.ranges.drop_first(), ellipsis: y.ellipsis };
                            if y.ranges.len() > 1 {
                                assert(denotes(tv.subrange(e1 + 1, e), sample_ranges_toks(y2.ranges, y2.ellipsis)));
                            }
                        }
                    }
                    return Err(er);
                },
            };
            let ghost old_rest = rest@;
            rest.sample_ranges.insert(0, r);
            proof {
                assert(rest@.ranges =~= seq![r@] + old_rest.ranges);
                assert(rest@.ranges.drop_first() =~= old_rest.ranges);
                lemma_one(tv, e1 as int, TokV::Comma);
                lemma_join(tv, e1 as int, e1 + 1, e2 as int, seq![TokV::Comma], sample_ranges_toks(old_rest.ranges, old_rest.ellipsis));
                lemma_join(tv, pos as int, e1 as int, e2 as int, sample_range_toks(r@), seq![TokV::Comma] + sample_ranges_toks(old_rest.ranges, old_rest.ellipsis));
                assert(sample_ranges_toks(rest@.ranges, rest@.ellipsis) =~= sample_range_toks(r@) + (seq![TokV::Comma]
                    + sample_ranges_toks(old_rest.ranges, old_rest.ellipsis)));
                assert forall|k: int| 0 <= k < rest@.ranges.len() implies sample_range_wf(#[trigger] rest@.ranges[k]) by {
                    if k > 0 {
                        assert(rest@.ranges[k] == old_rest.ranges[k - 1]);
                    }
                }
                assert forall|y: SampleListV, e: int|
                    pos <= e <= toks@.len() && sample_ranges_wf(y.ranges) && denotes(
                        tv.subrange(pos as int, e),
                        sample_ranges_toks(y.ranges, y.ellipsis),
                    ) && !at(tv, e, TokV::Tilde) && !at(tv, e, TokV::Comma) implies rest@ == y && e2 == e by {
                    let m = pos + sample_range_toks(y.ranges[0]).len();
                    assert(sample_range_wf(y.ranges[0]));
                    assert(denotes(tv.subrange(pos as int, m), sample_range_toks(y.ranges[0])));
                    let y2 = SampleListV { ranges: y.ranges.drop_first(), ellipsis: y.ellipsis };
                    assert(denotes(tv.subrange(e1 + 1, e), sample_ranges_toks(y2.ranges, y2.ellipsis)));
                    assert(y.ranges =~= seq![y.ranges[0]] + y.ranges.drop_first());
                }
            }
            Ok((rest, e2))
        }
    } else {
        let x = SampleList { sample_ranges: vec![r], ellipsis: false };
        proof {
            assert(ranges_view(x.sample_ranges@) =~= seq![r@]);
            assert(sample_ranges_toks(x@.ranges, false) =~= sample_range_toks(r@));
            assert forall|y: SampleListV, e: int|
                pos <= e <= toks@.len() && sample_ranges_wf(y.ranges) && denotes(
                    tv.subrange(pos as int, e),
                    sample_ranges_toks(y.ranges, y.ellipsis),
                ) && !at(tv, e, TokV::Tilde) && !at(tv, e, TokV::Comma) implies x@ == y && e == e1 by {
                let m = pos + sample_range_toks(y.ranges[0]).len();
                assert(sample_range_wf(y.ranges[0]));
                assert(denotes(tv.subrange(pos as int, m), sample_range_toks(y.ranges[0])));
                assert(y.ranges =~= seq![y.ranges[0]]);
            }
        }
        Ok((x, e1))
    }
}

proof fn lemma_opt_list_first(at: TokV, l: Option<SampleListV>)
    requires
        l is Some,
    ensures
        opt_list_toks(at, l).len() > 0,
        opt_list_toks(at, l)[0] == at,
{
}

pub open spec fn list_at(integer: bool) -> TokV {
    if integer {
        TokV::AtInteger
    } else {
        TokV::AtDecimal
    }
}

/// A sample list ends at `e`: at the end of the input, or, for the integer
/// samples, where the decimal samples start.
pub open spec fn list_end(tv: Seq<TokV>, e: int, integer: bool) -> bool {
    e == tv.len() || (integer && at(tv, e, TokV::AtDecimal))
}

fn parse_opt_list(toks: &Vec<Token>, s: &[u8], pos: usize, integer: bool) -> (res: Result<(Option<SampleList>, usize), ParseError>)
    requires
        spans_ok(toks@, s@),
        pos <= toks@.len(),
    ensures
        res is Ok ==> {
            let (x, e) = res->Ok_0;
            &&& pos <= e <= toks@.len()
            &&& opt_list_wf(opt_list_view(x))
            &&& denotes(tv_of(toks, s).subrange(pos as int, e as int), opt_list_toks(list_at(integer), opt_list_view(x)))
        },
        forall|x: Option<SampleListV>, e: int|
            #![trigger denotes(tv_of(toks, s).subrange(pos as int, e), opt_list_toks(list_at(integer), x))]
            pos <= e <= toks@.len() && opt_list_wf(x) && denotes(tv_of(toks, s).subrange(pos as int, e), opt_list_toks(list_at(integer), x))
                && list_end(tv_of(toks, s), e, integer) ==> res is Ok && opt_list_view(res->Ok_0.0) == x && res->Ok_0.1 == e,
{
    let ghost tv = tv_of(toks, s);
    let ghost at_tok = list_at(integer);
    let _n = toks.len();
    proof {
        assert forall|x: Option<SampleListV>, e: int|
            pos <= e <= toks@.len() && opt_list_wf(x) && denotes(tv.subrange(pos as int, e), opt_list_toks(at_tok, x))
                implies match x {
                    None => e == pos,
                    Some(l) => pos < e && tv[pos as int] == at_tok && denotes(tv.subrange(pos + 1, e), sample_ranges_toks(l.ranges, l.ellipsis))
                        && sample_ranges_wf(l.ranges),
                } by {
            if x is Some {
                let l = x->0;
                assert(opt_list_toks(at_tok, x) =~= seq![at_tok] + sample_ranges_toks(l.ranges, l.ellipsis));
                lemma_split(tv, pos as int, pos + 1, e, seq![at_tok], sample_ranges_toks(l.ranges, l.ellipsis));
                lemma_one(tv, pos as int, at_tok);
            }
        }
    }
    let kind = if integer {
        TokenKind::AtInteger
    } else {
        TokenKind::AtDecimal
    };
    if kind_at(toks, pos) == Some(kind) {
        assert(tv[pos as int] == at_tok);
        let (l, e) = match parse_sample_list(toks, s, pos + 1) {
            Ok(r) => r,
            Err(er) => {
                return Err(er);
            },
        };
        proof {
            lemma_one(tv, pos as int, at_tok);
            lemma_join(tv, pos as int, pos + 1, e as int, seq![at_tok], sample_ranges_toks(l@.ranges, l@.ellipsis));
            assert(opt_list_toks(at_tok, Some(l@)) =~= seq![at_tok] + sample_ranges_toks(l@.ranges, l@.ellipsis));
        }
        Ok((Some(l), e))
    } else {
        assert(tv.subrange(pos as int, pos as int) =~= Seq::<TokV>::empty());
        Ok((None, pos))
    }
}

fn parse_rule_tokens(toks: &Vec<Token>, s: &[u8]) -> (res: Result<Rule, ParseError>)
    requires
        spans_ok(toks@, s@),
    ensures
        res is Ok ==> rule_wf(res->Ok_0@) && denotes(tv_of(toks, s), rule_toks(res->Ok_0@)),
        forall|x: RuleV| #![trigger denotes(tv_of(toks, s), rule_toks(x))]
            rule_wf(x) && denotes(tv_of(toks, s), rule_toks(x)) ==> res is Ok && res->Ok_0@ == x,
{
    let ghost tv = tv_of(toks, s);
    let n = toks.len();
    assert(tv.subrange(0, n as int) =~= tv);
    proof {
        // The parts of the tokens that any tree stands for.
        assert forall|x: RuleV| rule_wf(x) && denotes(tv, rule_toks(x)) implies {
            let m = cond_toks(x.condition).len() as int;
            let ints = match x.samples { Some(ss) => ss.integer, None => None };
            let decs = match x.samples { Some(ss) => ss.decimal, None => None };
            let m2 = m + opt_list_toks(TokV::AtInteger, ints).len();
            &&& m <= m2 <= n
            &&& denotes(tv.subrange(0, m), cond_toks(x.condition))
            &&& cond_end(tv, m)
            &&& denotes(tv.subrange(m, m2), opt_list_toks(list_at(true), ints))
            &&& denotes(tv.subrange(m2, n as int), opt_list_toks(list_at(false), decs))
            &&& list_end(tv, m2, true)
            &&& opt_list_wf(ints) && opt_list_wf(decs)
        } by {
            let m = cond_toks(x.condition).len() as int;
            let ints = match x.samples { Some(ss) => ss.integer, None => None };
            let decs = match x.samples { Some(ss) => ss.decimal, None => None };
            let m2 = m + opt_list_toks(TokV::AtInteger, ints).len();
            assert(samples_toks(x.samples) =~= opt_list_toks(TokV::AtInteger, ints) + opt_list_toks(TokV::AtDecimal, decs));
            assert(rule_toks(x) =~= cond_toks(x.condition) + (opt_list_toks(TokV::AtInteger, ints) + opt_list_toks(TokV::AtDecimal, decs)));
            lemma_split(tv, 0, m, n as int, cond_toks(x.condition), opt_list_toks(TokV::AtInteger, ints) + opt_list_toks(TokV::AtDecimal, decs));
            lemma_split(tv, m, m2, n as int, opt_list_toks(TokV::AtInteger, ints), opt_list_toks(TokV::AtDecimal, decs));
            if decs is Some {
                lemma_opt_list_first(TokV::AtDecimal, decs);
                assert(tok_matches(tv.subrange(m2, n as int)[0], TokV::AtDecimal));
            }
            if ints is Some {
                lemma_opt_list_first(TokV::AtInteger, ints);
                assert(tok_matches(tv.subrange(m, m2)[0], TokV::AtInteger));
            } else if decs is Some {
                assert(m == m2);
            }
        }
    }
    let (cond, e1) = match parse_condition_at(toks, s, 0) {
        Ok(p) => p,
        Err(er) => {
            return Err(er);
        },
    };
    let (integer, ints_end) = match parse_opt_list(toks, s, e1, true) {
        Ok(p) => p,
        Err(er) => {
            return Err(er);
        },
    };
    let (decimal, decs_end) = match parse_opt_list(toks, s, ints_end, false) {
        Ok(p) => p,
        Err(er) => {
            return Err(er);
        },
    };
    if decs_end < n {
        proof {
            assert forall|x: RuleV| rule_wf(x) && denotes(tv, rule_toks(x)) implies false by {
                let m = cond_toks(x.condition).len() as int;
                let ints = match x.samples { Some(ss) => ss.integer, None => None };
                let decs = match x.samples { Some(ss) => ss.decimal, None => None };
                let m2 = m + opt_list_toks(TokV::AtInteger, ints).len();
                assert(denotes(tv.subrange(0, m), cond_toks(x.condition)));
                assert(denotes(tv.subrange(m, m2), opt_list_toks(list_at(true), ints)));
                assert(denotes(tv.subrange(m2, n as int), opt_list_toks(list_at(false), decs)));
            }
        }
        return Err(error_at(toks, s, decs_end, ParseErrorKind::UnexpectedCharacter));
    }
    let samples = if integer.is_none() && decimal.is_none() {
        None
    } else {
        Some(Samples { integer, decimal })
    };
    let r = Rule { condition: cond, samples };
    proof {
        let it = opt_list_toks(TokV::AtInteger, opt_list_view(integer));
        let dt = opt_list_toks(TokV::AtDecimal, opt_list_view(decimal));
        lemma_join(tv, e1 as int, ints_end as int, n as int, it, dt);
        lemma_join(tv, 0, e1 as int, n as int, cond_toks(cond@), it + dt);
        assert(samples_toks(r@.samples) =~= it + dt);
        assert(rule_toks(r@) =~= cond_toks(cond@) + (it + dt));
        assert forall|x: RuleV| rule_wf(x) && denotes(tv, rule_toks(x)) implies r@ == x by {
            let m = cond_toks(x.condition).len() as int;
            let ints = match x.samples { Some(ss) => ss.integer, None => None };
            let decs = match x.samples { Some(ss) => ss.decimal, None => None };
            let m2 = m + opt_list_toks(TokV::AtInteger, ints).len();
            assert(denotes(tv.subrange(0, m), cond_toks(x.condition)));
            assert(denotes(tv.subrange(m, m2), opt_list_toks(list_at(true), ints)));
            assert(denotes(tv.subrange(m2, n as int), opt_list_toks(list_at(false), decs)));
            if x.samples is None {
                assert(x.samples == r@.samples);
            } else {
                assert(x.samples->0 == r@.samples->0);
            }
        }
    }
    Ok(r)
}

/// The kinds of error found while splitting the text into tokens.
pub open spec fn lexical_kind(k: ParseErrorKind) -> bool {
    k == ParseErrorKind::UnexpectedCharacter || k == ParseErrorKind::UnknownOperand || k
        == ParseErrorKind::InvalidOperator
}

fn lex_error(s: &[u8], offset: usize) -> (r: ParseError)
    requires
        offset < s@.len(),
    ensures
        lexical_kind(r.kind),
        r.offset == offset,
        r.kind == ParseErrorKind::UnknownOperand <==> is_letter(s@[offset as int]),
        r.kind == ParseErrorKind::InvalidOperator <==> (s@[offset as int] == 33 || s@[offset as int] == 46),
{
    let kind = if 97 <= s[offset] && s[offset] <= 122 {
        ParseErrorKind::UnknownOperand
    } else if s[offset] == 33 || s[offset] == 46 {
        ParseErrorKind::InvalidOperator
    } else {
        ParseErrorKind::UnexpectedCharacter
    };
    ParseError { kind, offset }
}

/// Parses a complete rule: a condition followed by optional `@integer` and
/// `@decimal` sample lists. Succeeds exactly when the input is the text of a
/// well-formed rule, and returns that rule.
pub fn parse(input: &[u8]) -> (r: Result<Rule, ParseError>)
    ensures
        r is Ok ==> rule_text(input@, r->Ok_0@),
        lex(input@) is None ==> r is Err && lexical_kind(r->Err_0.kind) && r->Err_0.offset < input@.len(),
        forall|x: RuleV| #[trigger] rule_text(input@, x) ==> r is Ok && r->Ok_0@ == x,
{
    match tokenize(input) {
        Err(offset) => Err(lex_error(input, offset)),
        Ok(toks) => {
            let r = parse_rule_tokens(&toks, input);
            proof {
                assert forall|x: RuleV| #[trigger] rule_text(input@, x) implies r is Ok && r->Ok_0@ == x by {
                    assert(denotes(tv_of(&toks, input), rule_toks(x)));
                }
            }
            r
        },
    }
}

/// Parses a condition alone (no samples). Succeeds exactly when the input is
/// the text of a well-formed condition, and returns that condition.
pub fn parse_condition(input: &[u8]) -> (r: Result<Condition, ParseError>)
    ensures
        r is Ok ==> condition_text(input@, r->Ok_0@),
        lex(input@) is None ==> r is Err && lexical_kind(r->Err_0.kind) && r->Err_0.offset < input@.len(),
        forall|x: Seq<Seq<RelationV>>| #[trigger] condition_text(input@, x) ==> r is Ok && r->Ok_0@ == x,
{
    match tokenize(input) {
        Err(offset) => Err(lex_error(input, offset)),
        Ok(toks) => {
            let ghost tv = tv_of(&toks, input);
            let n = toks.len();
            assert(tv.subrange(0, n as int) =~= tv);
            let (c, e) = match parse_condition_at(&toks, input, 0) {
                Ok(p) => p,
                Err(er) => {
                    return Err(er);
                },
            };
            if e < n {
                proof {
                    assert forall|x: Seq<Seq<RelationV>>| !#[trigger] condition_text(input@, x) by {
                        if condition_text(input@, x) {
                            assert(denotes(tv.subrange(0, n as int), cond_toks(x)));
                        }
                    }
                }
                return Err(error_at(&toks, input, e, ParseErrorKind::UnexpectedCharacter));
            }
            proof {
                assert forall|x: Seq<Seq<RelationV>>| #[trigger] condition_text(input@, x) implies c@ == x by {
                    assert(denotes(tv.subrange(0, n as int), cond_toks(x)));
                }
            }
            Ok(c)
        },
    }
}

} // verus!
