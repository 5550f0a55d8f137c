//! Printing rules back to text, and the law that the printed text parses to
//! the same rule.
use vstd::prelude::*;
use crate::ast::{
    opt_list_view, AndCondition, Condition, DecimalValue, Operand, Operator, RangeListItem,
    Relation, RelationV, Rule, RuleV, SampleList, SampleListV, SampleRange, SampleRangeV,
};
use crate::lexer::{chars_of, in_class, is_digit, is_ws, lex, next_token, prepend, run_len, TokV};
use crate::operands::{chars_value, dot_pos, is_digit_char, numeral_wf};
use crate::parser::{
    and_toks, ands_view, cond_toks, denotes, expr_toks, item_toks, items_toks, operator_tok,
    opt_list_toks, opt_list_wf, ranges_view, rels_view, relation_toks, rule_text, rule_toks, rule_wf, sample_range_toks, sample_range_wf,
    sample_ranges_toks, samples_toks, tok_matches,
};

verus! {

/// The decimal digits of `k`, most significant first, without leading zeros.
pub open spec fn nat_digits(k: nat) -> Seq<u8>
    decreases k,
{
    if k < 10 {
        seq![(48 + k) as u8]
    } else {
        nat_digits(k / 10).push((48 + k % 10) as u8)
    }
}

pub open spec fn bytes_of(t: Seq<char>) -> Seq<u8> {
    t.map_values(|c: char| c as u8)
}

pub open spec fn operand_byte(o: Operand) -> u8 {
    match o {
        Operand::N => 110,
        Operand::I => 105,
        Operand::V => 118,
        Operand::W => 119,
        Operand::F => 102,
        Operand::T => 116,
        Operand::C => 99,
        Operand::E => 101,
    }
}

/// The text of a token.
pub open spec fn tok_text(t: TokV) -> Seq<u8> {
    match t {
        TokV::Op(o) => seq![operand_byte(o)],
        TokV::Eq => seq![61u8],
        TokV::NotEq => seq![33u8, 61],
        TokV::Percent => seq![37u8],
        TokV::Comma => seq![44u8],
        TokV::DotDot => seq![46u8, 46],
        TokV::Tilde => seq![126u8],
        TokV::Ellipsis => seq![46u8, 46, 46],
        TokV::Or => seq![111u8, 114],
        TokV::And => seq![97u8, 110, 100],
        TokV::AtInteger => seq![64u8, 105, 110, 116, 101, 103, 101, 114],
        TokV::AtDecimal => seq![64u8, 100, 101, 99, 105, 109, 97, 108],
        TokV::Num(x) => x,
        TokV::Dec(x) => x,
        TokV::Val(k) => nat_digits(k),
        TokV::Lit(x) => bytes_of(x),
    }
}

/// The text of a token sequence: each token followed by a space.
pub open spec fn render(ts: Seq<TokV>) -> Seq<u8>
    decreases ts.len(),
{
    if ts.len() == 0 {
        Seq::empty()
    } else {
        tok_text(ts[0]) + seq![32u8] + render(ts.drop_first())
    }
}

/// The text that a rule prints as.
pub open spec fn rule_bytes(r: RuleV) -> Seq<u8> {
    render(rule_toks(r))
}

/// The token that the lexer reads from the text of `t`.
pub open spec fn lexed(t: TokV) -> TokV {
    match t {
        TokV::Val(k) => TokV::Num(nat_digits(k)),
        TokV::Lit(x) => if dot_pos(x) < x.len() {
            TokV::Dec(bytes_of(x))
        } else {
            TokV::Num(bytes_of(x))
        },
        _ => t,
    }
}

pub open spec fn renderable(t: TokV) -> bool {
    match t {
        TokV::Lit(x) => numeral_wf(x),
        TokV::Num(_) => false,
        TokV::Dec(_) => false,
        _ => true,
    }
}

pub open spec fn all_renderable(ts: Seq<TokV>) -> bool {
    forall|k: int| 0 <= k < ts.len() ==> renderable(#[trigger] ts[k])
}

proof fn lemma_run(s: Seq<u8>, k: int, letters: bool)
    requires
        0 <= k <= s.len(),
        forall|q: int| 0 <= q < k ==> in_class(#[trigger] s[q], letters),
        k == s.len() || !in_class(s[k], letters),
    ensures
        run_len(s, letters) == k,
    decreases k,
{
    if k > 0 {
        lemma_run(s.drop_first(), k - 1, letters);
    }
}

proof fn lemma_nat_digits(k: nat)
    ensures
        nat_digits(k).len() > 0,
        forall|q: int| 0 <= q < nat_digits(k).len() ==> is_digit(#[trigger] nat_digits(k)[q]),
        chars_value(chars_of(nat_digits(k))) == k,
    decreases k,
{
    let d = nat_digits(k);
    let c = chars_of(d);
    if k >= 10 {
        lemma_nat_digits(k / 10);
        assert(c.drop_last() =~= chars_of(nat_digits(k / 10)));
        assert(c.last() == ((48 + k % 10) as u8) as char);
        assert((c.last() as u32 - '0' as u32) as nat == k % 10);
        assert(k == (k / 10) * 10 + k % 10);
        assert(c.len() > 0);
        assert(chars_value(c) == chars_value(c.drop_last()) * 10 + (c.last() as u32 - '0' as u32) as nat);
    } else {
        assert(c.drop_last() =~= Seq::<char>::empty());
        assert((c.last() as u32 - '0' as u32) as nat == k);
        assert(c.len() == 1);
        assert(chars_value(c) == chars_value(c.drop_last()) * 10 + (c.last() as u32 - '0' as u32) as nat);
    }
}

proof fn lemma_bytes_chars(x: Seq<char>)
    requires
        forall|q: int| 0 <= q < x.len() ==> #[trigger] is_digit_char(x[q]) || x[q] == '.',
    ensures
        chars_of(bytes_of(x)) == x,
{
    assert forall|q: int| 0 <= q < x.len() implies #[trigger] chars_of(bytes_of(x))[q] == x[q] by {
        assert(is_digit_char(x[q]) || x[q] == '.');
        assert(chars_of(bytes_of(x))[q] == (x[q] as u8) as char);
    }
    assert(chars_of(bytes_of(x)) =~= x);
}

/// Lexing the text of one token, followed by a space, gives that token back.
proof fn lemma_lex_token(t: TokV, rest: Seq<u8>)
    requires
        renderable(t),
    ensures
        lex(tok_text(t) + seq![32u8] + rest) == prepend(seq![lexed(t)], lex(rest)),
        tok_matches(lexed(t), t),
{
    let x = tok_text(t);
    let s = x + seq![32u8] + rest;
    let k = x.len() as int;
    assert(s.subrange(k, s.len() as int).drop_first() =~= rest);
    assert(s[k] == 32u8);
    match t {
        TokV::Op(o) => {
            lemma_run(s, 1, true);
            assert(s.subrange(0, 1) =~= x);
        },
        TokV::Or => {
            lemma_run(s, 2, true);
            assert(s.subrange(0, 2) =~= seq![111u8, 114]);
        },
        TokV::And => {
            lemma_run(s, 3, true);
            assert(s.subrange(0, 3) =~= seq![97u8, 110, 100]);
        },
        TokV::AtInteger => {
            lemma_run(s.drop_first(), 7, true);
            assert(s.subrange(1, 8) =~= seq![105u8, 110, 116, 101, 103, 101, 114]);
        },
        TokV::AtDecimal => {
            lemma_run(s.drop_first(), 7, true);
            assert(s.subrange(1, 8) =~= seq![100u8, 101, 99, 105, 109, 97, 108]);
        },
        TokV::Val(v) => {
            lemma_nat_digits(v);
            lemma_run(s, k, false);
            assert(s.subrange(0, k) =~= x);
        },
        TokV::Lit(lit) => {
            let p = dot_pos(lit) as int;
            assert forall|q: int| 0 <= q < lit.len() implies #[trigger] is_digit_char(lit[q]) || lit[q] == '.' by {
                if q < p {
                    assert(is_digit_char(lit.subrange(0, p)[q]));
                } else if q == p {
                    crate::parser::lemma_dot_at(lit);
                } else {
                    assert(is_digit_char(lit.subrange(p + 1, lit.len() as int)[q - p - 1]));
                }
            }
            lemma_bytes_chars(lit);
            assert forall|q: int| 0 <= q < p implies is_digit(#[trigger] s[q]) by {
                assert(is_digit_char(lit.subrange(0, p)[q]));
                assert(s[q] == lit[q] as u8);
            }
            if p == lit.len() {
                lemma_run(s, k, false);
                assert(s.subrange(0, k) =~= x);
            } else {
                crate::parser::lemma_dot_at(lit);
                assert(s[p] == 46u8);
                assert(!is_digit(s[p]));
                lemma_run(s, p, false);
                assert(is_digit_char(lit.subrange(p + 1, lit.len() as int)[0]));
                let tail = s.subrange(p + 1, s.len() as int);
                assert forall|q: int| 0 <= q < k - p - 1 implies is_digit(#[trigger] tail[q]) by {
                    assert(is_digit_char(lit.subrange(p + 1, lit.len() as int)[q]));
                    assert(tail[q] == lit[p + 1 + q] as u8);
                }
                lemma_run(tail, k - p - 1, false);
                assert(s.subrange(0, k) =~= x);
            }
        },
        _ => {},
    }
    assert(!is_ws(s[0]));
    assert(next_token(s) == Some((lexed(t), k as nat)));
    assert(lex(s.subrange(k, s.len() as int)) == lex(rest));
}

/// The text of a token sequence lexes to the tokens that it was printed from.
proof fn lemma_lex_render(ts: Seq<TokV>)
    requires
        all_renderable(ts),
    ensures
        lex(render(ts)) == Some(ts.map_values(|t: TokV| lexed(t))),
        denotes(ts.map_values(|t: TokV| lexed(t)), ts),
    decreases ts.len(),
{
    if ts.len() > 0 {
        let tail = ts.drop_first();
        assert(all_renderable(tail)) by {
            assert forall|k: int| 0 <= k < tail.len() implies renderable(#[trigger] tail[k]) by {
                assert(renderable(ts[k + 1]));
            }
        }
        lemma_lex_render(tail);
        assert(renderable(ts[0]));
        lemma_lex_token(ts[0], render(tail));
        let m = ts.map_values(|t: TokV| lexed(t));
        assert(m =~= seq![lexed(ts[0])] + tail.map_values(|t: TokV| lexed(t)));
        assert forall|k: int| 0 <= k < m.len() implies tok_matches(#[trigger] m[k], ts[k]) by {
            if k > 0 {
                assert(m[k] == tail.map_values(|t: TokV| lexed(t))[k - 1]);
            }
        }
    } else {
        assert(ts.map_values(|t: TokV| lexed(t)) =~= Seq::<TokV>::empty());
    }
}

proof fn lemma_ar_concat(a: Seq<TokV>, b: Seq<TokV>)
    requires
        all_renderable(a),
        all_renderable(b),
    ensures
        all_renderable(a + b),
{
    assert forall|k: int| 0 <= k < (a + b).len() implies renderable(#[trigger] (a + b)[k]) by {
        if k < a.len() {
            assert(renderable(a[k]));
        } else {
            assert(renderable(b[k - a.len()]));
        }
    }
}

proof fn lemma_ar_items(s: Seq<RangeListItem>)
    ensures
        all_renderable(items_toks(s)),
    decreases s.len(),
{
    if s.len() > 1 {
        lemma_ar_items(s.drop_first());
        lemma_ar_concat(item_toks(s[0]), seq![TokV::Comma]);
        lemma_ar_concat(item_toks(s[0]) + seq![TokV::Comma], items_toks(s.drop_first()));
    }
}

proof fn lemma_ar_relation(r: RelationV)
    ensures
        all_renderable(relation_toks(r)),
{
    lemma_ar_items(r.range_list);
    lemma_ar_concat(expr_toks(r.expression), seq![operator_tok(r.operator)]);
    lemma_ar_concat(expr_toks(r.expression) + seq![operator_tok(r.operator)], items_toks(r.range_list));
}

proof fn lemma_ar_and(s: Seq<RelationV>)
    ensures
        all_renderable(and_toks(s)),
    decreases s.len(),
{
    if s.len() > 0 {
        lemma_ar_relation(s[0]);
    }
    if s.len() > 1 {
        lemma_ar_and(s.drop_first());
        lemma_ar_concat(relation_toks(s[0]), seq![TokV::And]);
        lemma_ar_concat(relation_toks(s[0]) + seq![TokV::And], and_toks(s.drop_first()));
    }
}

proof fn lemma_ar_cond(s: Seq<Seq<RelationV>>)
    ensures
        all_renderable(cond_toks(s)),
    decreases s.len(),
{
    if s.len() > 0 {
        lemma_ar_and(s[0]);
    }
    if s.len() > 1 {
        lemma_ar_cond(s.drop_first());
        lemma_ar_concat(and_toks(s[0]), seq![TokV::Or]);
        lemma_ar_concat(and_toks(s[0]) + seq![TokV::Or], cond_toks(s.drop_first()));
    }
}

proof fn lemma_ar_ranges(s: Seq<SampleRangeV>, ell: bool)
    requires
        forall|k: int| 0 <= k < s.len() ==> sample_range_wf(#[trigger] s[k]),
    ensures
        all_renderable(sample_ranges_toks(s, ell)),
    decreases s.len(),
{
    if s.len() > 0 {
        assert(sample_range_wf(s[0]));
        assert(all_renderable(sample_range_toks(s[0])));
    }
    if s.len() == 1 {
        lemma_ar_concat(sample_range_toks(s[0]), if ell {
            seq![TokV::Comma, TokV::Ellipsis]
        } else {
            Seq::empty()
        });
    } else if s.len() > 1 {
        assert forall|k: int| 0 <= k < s.drop_first().len() implies sample_range_wf(#[trigger] s.drop_first()[k]) by {
            assert(sample_range_wf(s[k + 1]));
        }
        lemma_ar_ranges(s.drop_first(), ell);
        lemma_ar_concat(sample_range_toks(s[0]), seq![TokV::Comma]);
        lemma_ar_concat(sample_range_toks(s[0]) + seq![TokV::Comma], sample_ranges_toks(s.drop_first(), ell));
    }
}

proof fn lemma_ar_opt_list(at: TokV, l: Option<SampleListV>)
    requires
        opt_list_wf(l),
        renderable(at),
    ensures
        all_renderable(opt_list_toks(at, l)),
{
    if l is Some {
        let l = l->0;
        lemma_ar_ranges(l.ranges, l.ellipsis);
        lemma_ar_concat(seq![at], sample_ranges_toks(l.ranges, l.ellipsis));
    }
}

proof fn lemma_ar_rule(r: RuleV)
    requires
        rule_wf(r),
    ensures
        all_renderable(rule_toks(r)),
{
    lemma_ar_cond(r.condition);
    if r.samples is Some {
        let ss = r.samples->0;
        lemma_ar_opt_list(TokV::AtInteger, ss.integer);
        lemma_ar_opt_list(TokV::AtDecimal, ss.decimal);
        lemma_ar_concat(opt_list_toks(TokV::AtInteger, ss.integer), opt_list_toks(TokV::AtDecimal, ss.decimal));
    }
    lemma_ar_concat(cond_toks(r.condition), samples_toks(r.samples));
}

/// Printing a well-formed rule gives text that is that rule.
pub proof fn lemma_print_parses(r: RuleV)
    requires
        rule_wf(r),
    ensures
        rule_text(rule_bytes(r), r),
{
    lemma_ar_rule(r);
    lemma_lex_render(rule_toks(r));
}

/// Round trip: when the text `input` parses to the rule `r`, printing `r` gives
/// text that parses to `r` again (`parse` returns exactly the rule that a text is).
pub proof fn lemma_round_trip(input: Seq<u8>, r: RuleV)
    requires
        rule_text(input, r),
    ensures
        rule_text(rule_bytes(r), r),
{
    lemma_print_parses(r);
}

proof fn lemma_render_concat(a: Seq<TokV>, b: Seq<TokV>)
    ensures
        render(a + b) == render(a) + render(b),
    decreases a.len(),
{
    if a.len() == 0 {
        assert(a + b =~= b);
        assert(render(a) + render(b) =~= render(b));
    } else {
        lemma_render_concat(a.drop_first(), b);
        assert((a + b).drop_first() =~= a.drop_first() + b);
        assert(render(a + b) =~= tok_text(a[0]) + seq![32u8] + render(a.drop_first() + b));
    }
}

proof fn lemma_render_one(t: TokV)
    ensures
        render(seq![t]) == tok_text(t) + seq![32u8],
{
    assert(seq![t].drop_first() =~= Seq::<TokV>::empty());
    assert(render(Seq::<TokV>::empty()) == Seq::<u8>::empty());
    assert(render(seq![t]) == tok_text(t) + seq![32u8] + render(Seq::<TokV>::empty()));
    assert(render(seq![t]) =~= tok_text(t) + seq![32u8]);
}

/// Appends the text of one token and a space.
fn put(out: &mut Vec<u8>, b: &[u8], t: Ghost<TokV>)
    requires
        b@ =~= tok_text(t@),
    ensures
        final(out)@ == old(out)@ + render(seq![t@]),
{
    let mut k: usize = 0;
    let ghost start = out@;
    while k < b.len()
        invariant
            k <= b@.len(),
            out@ == start + b@.subrange(0, k as int),
        decreases b@.len() - k,
    {
        out.push(b[k]);
        k = k + 1;
        assert(out@ =~= start + b@.subrange(0, k as int));
    }
    out.push(32);
    proof {
        lemma_render_one(t@);
        assert(b@.subrange(0, b@.len() as int) =~= b@);
        assert(out@ =~= start + (tok_text(t@) + seq![32u8]));
    }
}

fn put_digits(out: &mut Vec<u8>, k: u64)
    ensures
        final(out)@ == old(out)@ + nat_digits(k as nat),
    decreases k,
{
    if k >= 10 {
        put_digits(out, k / 10);
    }
    let ghost mid = out@;
    out.push((48 + k % 10) as u8);
    proof {
        if k >= 10 {
            assert(out@ =~= old(out)@ + nat_digits(k as nat));
        } else {
            assert(out@ =~= old(out)@ + nat_digits(k as nat));
        }
    }
}

fn put_value(out: &mut Vec<u8>, k: u64)
    ensures
        final(out)@ == old(out)@ + render(seq![TokV::Val(k as nat)]),
{
    put_digits(out, k);
    out.push(32);
    proof {
        lemma_render_one(TokV::Val(k as nat));
        assert(out@ =~= old(out)@ + (nat_digits(k as nat) + seq![32u8]));
    }
}

fn put_literal(out: &mut Vec<u8>, d: &DecimalValue)
    ensures
        final(out)@ == old(out)@ + render(seq![TokV::Lit(d@)]),
{
    let t = d.0.as_str();
    let n = t.unicode_len();
    let mut k: usize = 0;
    let ghost start = out@;
    while k < n
        invariant
            k <= n,
            n == t@.len(),
            t@ == d@,
            out@ == start + bytes_of(t@.subrange(0, k as int)),
        decreases n - k,
    {
        let c = t.get_char(k);
        out.push(c as u8);
        k = k + 1;
        assert(out@ =~= start + bytes_of(t@.subrange(0, k as int)));
    }
    out.push(32);
    proof {
        lemma_render_one(TokV::Lit(d@));
        assert(t@.subrange(0, n as int) =~= d@);
        assert(out@ =~= start + (bytes_of(d@) + seq![32u8]));
    }
}

fn put_operand(out: &mut Vec<u8>, o: Operand)
    ensures
        final(out)@ == old(out)@ + render(seq![TokV::Op(o)]),
{
    let b: u8 = match o {
        Operand::N => 110,
        Operand::I => 105,
        Operand::V => 118,
        Operand::W => 119,
        Operand::F => 102,
        Operand::T => 116,
        Operand::C => 99,
        Operand::E => 101,
    };
    out.push(b);
    out.push(32);
    proof {
        lemma_render_one(TokV::Op(o));
        assert(out@ =~= old(out)@ + (tok_text(TokV::Op(o)) + seq![32u8]));
    }
}

fn put_item(out: &mut Vec<u8>, it: RangeListItem)
    ensures
        final(out)@ == old(out)@ + render(item_toks(it)),
{
    match it {
        RangeListItem::Value(v) => put_value(out, v.0),
        RangeListItem::Range(a, b) => {
            put_value(out, a.0);
            put(out, &[46u8, 46], Ghost(TokV::DotDot));
            put_value(out, b.0);
            proof {
                lemma_render_concat(seq![TokV::Val(a.0 as nat)], seq![TokV::DotDot]);
                lemma_render_concat(seq![TokV::Val(a.0 as nat)] + seq![TokV::DotDot], seq![TokV::Val(b.0 as nat)]);
                assert(item_toks(it) =~= seq![TokV::Val(a.0 as nat)] + seq![TokV::DotDot] + seq![TokV::Val(b.0 as nat)]);
            }
        },
    }
}

fn put_items(out: &mut Vec<u8>, items: &Vec<RangeListItem>, from: usize)
    requires
        from <= items@.len(),
    ensures
        final(out)@ == old(out)@ + render(items_toks(items@.subrange(from as int, items@.len() as int))),
    decreases items@.len() - from,
{
    let ghost sub = items@.subrange(from as int, items@.len() as int);
    if from == items.len() {
        assert(out@ =~= out@ + render(items_toks(sub)));
        return;
    }
    put_item(out, items[from]);
    if from + 1 < items.len() {
        put(out, &[44u8], Ghost(TokV::Comma));
        put_items(out, items, from + 1);
        proof {
            assert(sub.drop_first() =~= items@.subrange(from + 1, items@.len() as int));
            lemma_render_concat(item_toks(sub[0]), seq![TokV::Comma]);
            lemma_render_concat(item_toks(sub[0]) + seq![TokV::Comma], items_toks(sub.drop_first()));
        }
    }
}

fn put_relation(out: &mut Vec<u8>, r: &Relation)
    ensures
        final(out)@ == old(out)@ + render(relation_toks(r@)),
{
    let e = r.expression;
    put_operand(out, e.operand);
    match e.modulus {
        Some(m) => {
            put(out, &[37u8], Ghost(TokV::Percent));
            put_value(out, m.0);
            proof {
                lemma_render_concat(seq![TokV::Op(e.operand)], seq![TokV::Percent]);
                lemma_render_concat(seq![TokV::Op(e.operand)] + seq![TokV::Percent], seq![TokV::Val(m.0 as nat)]);
                assert(expr_toks(e) =~= seq![TokV::Op(e.operand)] + seq![TokV::Percent] + seq![TokV::Val(m.0 as nat)]);
            }
        },
        None => {},
    }
    match r.operator {
        Operator::Eq => put(out, &[61u8], Ghost(TokV::Eq)),
        Operator::NotEq => put(out, &[33u8, 61], Ghost(TokV::NotEq)),
    }
    put_items(out, &r.range_list.0, 0);
    proof {
        assert(r.range_list.0@.subrange(0, r.range_list.0@.len() as int) =~= r@.range_list);
        lemma_render_concat(expr_toks(e), seq![operator_tok(r.operator)]);
        lemma_render_concat(expr_toks(e) + seq![operator_tok(r.operator)], items_toks(r@.range_list));
    }
}

fn put_and(out: &mut Vec<u8>, rels: &Vec<Relation>, from: usize)
    requires
        from <= rels@.len(),
    ensures
        final(out)@ == old(out)@ + render(and_toks(rels_view(rels@).subrange(from as int, rels@.len() as int))),
    decreases rels@.len() - from,
{
    let ghost sub = rels_view(rels@).subrange(from as int, rels@.len() as int);
    if from == rels.len() {
        assert(out@ =~= out@ + render(and_toks(sub)));
        return;
    }
    put_relation(out, &rels[from]);
    if from + 1 < rels.len() {
        put(out, &[97u8, 110, 100], Ghost(TokV::And));
        put_and(out, rels, from + 1);
        proof {
            assert(sub.drop_first() =~= rels_view(rels@).subrange(from + 1, rels@.len() as int));
            lemma_render_concat(relation_toks(sub[0]), seq![TokV::And]);
            lemma_render_concat(relation_toks(sub[0]) + seq![TokV::And], and_toks(sub.drop_first()));
        }
    }
}

fn put_or(out: &mut Vec<u8>, ands: &Vec<AndCondition>, from: usize)
    requires
        from <= ands@.len(),
    ensures
        final(out)@ == old(out)@ + render(cond_toks(ands_view(ands@).subrange(from as int, ands@.len() as int))),
    decreases ands@.len() - from,
{
    let ghost sub = ands_view(ands@).subrange(from as int, ands@.len() as int);
    if from == ands.len() {
        assert(out@ =~= out@ + render(cond_toks(sub)));
        return;
    }
    put_and(out, &ands[from].0, 0);
    assert(rels_view(ands@[from as int].0@).subrange(0, ands@[from as int].0@.len() as int) =~= sub[0]);
    if from + 1 < ands.len() {
        put(out, &[111u8, 114], Ghost(TokV::Or));
        put_or(out, ands, from + 1);
        proof {
            assert(sub.drop_first() =~= ands_view(ands@).subrange(from + 1, ands@.len() as int));
            lemma_render_concat(and_toks(sub[0]), seq![TokV::Or]);
            lemma_render_concat(and_toks(sub[0]) + seq![TokV::Or], cond_toks(sub.drop_first()));
        }
    }
}

fn put_range(out: &mut Vec<u8>, r: &SampleRange)
    ensures
        final(out)@ == old(out)@ + render(sample_range_toks(r@)),
{
    put_literal(out, &r.lower_val);
    match &r.upper_val {
        Some(u) => {
            put(out, &[126u8], Ghost(TokV::Tilde));
            put_literal(out, u);
            proof {
                lemma_render_concat(seq![TokV::Lit(r@.lower)], seq![TokV::Tilde]);
                lemma_render_concat(seq![TokV::Lit(r@.lower)] + seq![TokV::Tilde], seq![TokV::Lit(u@)]);
                assert(sample_range_toks(r@) =~= seq![TokV::Lit(r@.lower)] + seq![TokV::Tilde] + seq![TokV::Lit(u@)]);
            }
        },
        None => {},
    }
}

fn put_ranges(out: &mut Vec<u8>, ranges: &Vec<SampleRange>, from: usize, ellipsis: bool)
    requires
        from <= ranges@.len(),
    ensures
        final(out)@ == old(out)@ + render(sample_ranges_toks(ranges_view(ranges@).subrange(from as int, ranges@.len() as int), ellipsis)),
    decreases ranges@.len() - from,
{
    let ghost sub = ranges_view(ranges@).subrange(from as int, ranges@.len() as int);
    if from == ranges.len() {
        assert(out@ =~= out@ + render(sample_ranges_toks(sub, ellipsis)));
        return;
    }
    put_range(out, &ranges[from]);
    if from + 1 < ranges.len() {
        put(out, &[44u8], Ghost(TokV::Comma));
        put_ranges(out, ranges, from + 1, ellipsis);
        proof {
            assert(sub.drop_first() =~= ranges_view(ranges@).subrange(from + 1, ranges@.len() as int));
            lemma_render_concat(sample_range_toks(sub[0]), seq![TokV::Comma]);
            lemma_render_concat(sample_range_toks(sub[0]) + seq![TokV::Comma], sample_ranges_toks(sub.drop_first(), ellipsis));
        }
    } else if ellipsis {
        put(out, &[44u8], Ghost(TokV::Comma));
        put(out, &[46u8, 46, 46], Ghost(TokV::Ellipsis));
        proof {
            lemma_render_concat(seq![TokV::Comma], seq![TokV::Ellipsis]);
            assert(seq![TokV::Comma] + seq![TokV::Ellipsis] =~= seq![TokV::Comma, TokV::Ellipsis]);
            lemma_render_concat(sample_range_toks(sub[0]), seq![TokV::Comma, TokV::Ellipsis]);
        }
    } else {
        assert(sample_range_toks(sub[0]) + Seq::<TokV>::empty() =~= sample_range_toks(sub[0]));
    }
}

fn put_opt_list(out: &mut Vec<u8>, l: &Option<SampleList>, integer: bool)
    ensures
        final(out)@ == old(out)@ + render(opt_list_toks(crate::parser::list_at(integer), opt_list_view(*l))),
{
    match l {
        None => {
            assert(out@ =~= out@ + render(Seq::<TokV>::empty()));
        },
        Some(l) => {
            if integer {
                put(out, &[64u8, 105, 110, 116, 101, 103, 101, 114], Ghost(TokV::AtInteger));
            } else {
                put(out, &[64u8, 100, 101, 99, 105, 109, 97, 108], Ghost(TokV::AtDecimal));
            }
            put_ranges(out, &l.sample_ranges, 0, l.ellipsis);
            proof {
                assert(ranges_view(l.sample_ranges@).subrange(0, l.sample_ranges@.len() as int) =~= l@.ranges);
                lemma_render_concat(seq![crate::parser::list_at(integer)], sample_ranges_toks(l@.ranges, l@.ellipsis));
            }
        },
    }
}

/// The text of a condition: its tokens, each followed by a space.
pub fn condition_to_bytes(c: &Condition) -> (out: Vec<u8>)
    ensures
        out@ == render(cond_toks(c@)),
{
    let mut out: Vec<u8> = Vec::new();
    put_or(&mut out, &c.0, 0);
    assert(ands_view(c.0@).subrange(0, c.0@.len() as int) =~= c@);
    assert(out@ =~= render(cond_toks(c@)));
    out
}

/// The text of a rule: its tokens, each followed by a space. Parsing it gives
/// the rule back (see `lemma_print_parses`).
pub fn rule_to_bytes(r: &Rule) -> (out: Vec<u8>)
    ensures
        out@ == rule_bytes(r@),
{
    let mut out = condition_to_bytes(&r.condition);
    match &r.samples {
        None => {
            assert(rule_toks(r@) =~= cond_toks(r@.condition));
        },
        Some(s) => {
            put_opt_list(&mut out, &s.integer, true);
            put_opt_list(&mut out, &s.decimal, false);
            proof {
                let it = opt_list_toks(TokV::AtInteger, opt_list_view(s.integer));
                let dt = opt_list_toks(TokV::AtDecimal, opt_list_view(s.decimal));
                lemma_render_concat(it, dt);
                lemma_render_concat(cond_toks(r@.condition), it + dt);
                assert(rule_toks(r@) =~= cond_toks(r@.condition) + (it + dt));
            }
        },
    }
    out
}

} // verus!
