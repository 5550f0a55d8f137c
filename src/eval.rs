//! Evaluation of a condition against the operands of a number, and plural
//! category selection.
use vstd::prelude::*;
use crate::ast::{
    AndCondition, Condition, Expression, Operand, Operator, RangeListItem, Relation, RelationV, Rule,
};
use crate::operands::PluralOperands;

verus! {

/// The value of an operand. `n` has an integer value only when the number has
/// no fractional part; otherwise it equals no integer and has no value here.
pub open spec fn operand_value(op: Operand, o: PluralOperands) -> Option<nat> {
    match op {
        Operand::N => if o.f == 0 { Some(o.i as nat) } else { None },
        Operand::I => Some(o.i as nat),
        Operand::V => Some(o.v as nat),
        Operand::W => Some(o.w as nat),
        Operand::F => Some(o.f as nat),
        Operand::T => Some(o.t as nat),
        Operand::C => Some(o.c as nat),
        Operand::E => Some(o.c as nat),
    }
}

/// The integer value of an expression, `None` when it has none (a number with
/// a fraction, or a modulus of zero).
pub open spec fn expression_value(e: Expression, o: PluralOperands) -> Option<nat> {
    match (operand_value(e.operand, o), e.modulus) {
        (None, _) => None,
        (Some(x), None) => Some(x),
        (Some(x), Some(m)) => if m.0 == 0 { None } else { Some(x % (m.0 as nat)) },
    }
}

pub open spec fn item_contains(item: RangeListItem, x: nat) -> bool {
    match item {
        RangeListItem::Value(v) => x == v.0,
        RangeListItem::Range(lo, hi) => lo.0 <= x && x <= hi.0,
    }
}

pub open spec fn range_list_contains(items: Seq<RangeListItem>, x: nat) -> bool {
    exists|k: int| 0 <= k < items.len() && item_contains(#[trigger] items[k], x)
}

pub open spec fn relation_holds(r: RelationV, o: PluralOperands) -> bool {
    match expression_value(r.expression, o) {
        None => r.operator == Operator::NotEq,
        Some(x) => (r.operator == Operator::Eq) == range_list_contains(r.range_list, x),
    }
}

pub open spec fn and_holds(rels: Seq<RelationV>, o: PluralOperands) -> bool {
    forall|k: int| 0 <= k < rels.len() ==> relation_holds(#[trigger] rels[k], o)
}

/// A condition holds when one of its conjunctions holds, or when it is empty.
pub open spec fn condition_holds(c: Seq<Seq<RelationV>>, o: PluralOperands) -> bool {
    c.len() == 0 || exists|k: int| 0 <= k < c.len() && and_holds(#[trigger] c[k], o)
}

fn operand_of(op: Operand, o: &PluralOperands) -> (r: Option<u64>)
    ensures
        match r {
            Some(x) => operand_value(op, *o) == Some(x as nat),
            None => operand_value(op, *o) is None,
        },
{
    match op {
        Operand::N => if o.f == 0 { Some(o.i) } else { None },
        Operand::I => Some(o.i),
        Operand::V => Some(o.v),
        Operand::W => Some(o.w),
        Operand::F => Some(o.f),
        Operand::T => Some(o.t),
        Operand::C => Some(o.c),
        Operand::E => Some(o.c),
    }
}

fn expression_of(e: &Expression, o: &PluralOperands) -> (r: Option<u64>)
    ensures
        match r {
            Some(x) => expression_value(*e, *o) == Some(x as nat),
            None => expression_value(*e, *o) is None,
        },
{
    match operand_of(e.operand, o) {
        None => None,
        Some(x) => match e.modulus {
            None => Some(x),
            Some(m) => if m.0 == 0 { None } else { Some(x % m.0) },
        },
    }
}

/// Whether `r` holds for the operands `o`.
pub fn test_relation(r: &Relation, o: &PluralOperands) -> (b: bool)
    ensures
        b == relation_holds(r@, *o),
{
    match expression_of(&r.expression, o) {
        None => match r.operator {
            Operator::Eq => false,
            Operator::NotEq => true,
        },
        Some(x) => {
            let items = &r.range_list.0;
            let mut found = false;
            let mut k: usize = 0;
            while k < items.len()
                invariant
                    k <= items@.len(),
                    items@ == r.range_list@,
                    found == exists|q: int| 0 <= q < k && item_contains(#[trigger] items@[q], x as nat),
                decreases items.len() - k,
            {
                let hit = match items[k] {
                    RangeListItem::Value(v) => x == v.0,
                    RangeListItem::Range(lo, hi) => lo.0 <= x && x <= hi.0,
                };
                assert(hit == item_contains(items@[k as int], x as nat));
                found = found || hit;
                k = k + 1;
            }
            match r.operator {
                Operator::Eq => found,
                Operator::NotEq => !found,
            }
        },
    }
}

/// Whether every relation of `a` holds for `o` (true when there is none).
pub fn test_and_condition(a: &AndCondition, o: &PluralOperands) -> (b: bool)
    ensures
        b == and_holds(a@, *o),
{
    let rels = &a.0;
    let mut k: usize = 0;
    while k < rels.len()
        invariant
            k <= rels@.len(),
            a@ == rels@.map_values(|r: Relation| r@),
            forall|q: int| 0 <= q < k ==> relation_holds(#[trigger] a@[q], *o),
        decreases rels.len() - k,
    {
        if !test_relation(&rels[k], o) {
            assert(!relation_holds(a@[k as int], *o));
            return false;
        }
        k = k + 1;
    }
    true
}

/// Whether the condition `c` holds for the operands `o`. An empty condition
/// holds for every number.
pub fn test_condition(c: &Condition, o: &PluralOperands) -> (b: bool)
    ensures
        b == condition_holds(c@, *o),
        c@.len() == 0 ==> b,
{
    let ands = &c.0;
    if ands.len() == 0 {
        return true;
    }
    let mut k: usize = 0;
    while k < ands.len()
        invariant
            k <= ands@.len(),
            c@ == ands@.map_values(|a: AndCondition| a@),
            forall|q: int| 0 <= q < k ==> !and_holds(#[trigger] c@[q], *o),
        decreases ands.len() - k,
    {
        if test_and_condition(&ands[k], o) {
            assert(and_holds(c@[k as int], *o));
            return true;
        }
        k = k + 1;
    }
    false
}

/// `i = 1` holds exactly for the numbers whose integer part is 1, whatever
/// their fraction digits (`1`, `1.0`, `1.75`), and for no other.
pub proof fn lemma_integer_part_one(o: PluralOperands)
    ensures
        relation_holds(
            RelationV {
                expression: Expression { operand: Operand::I, modulus: None },
                operator: Operator::Eq,
                range_list: seq![RangeListItem::Value(crate::ast::Value(1))],
            },
            o,
        ) <==> o.i == 1,
{
    let items = seq![RangeListItem::Value(crate::ast::Value(1))];
    assert(item_contains(items[0], o.i as nat) <==> o.i == 1);
}

/// The grammatical plural categories.
#[derive(Debug, Clone, Copy, PartialEq, Eq, Structural)]
pub enum PluralCategory {
    Zero,
    One,
    Two,
    Few,
    Many,
    Other,
}

pub open spec fn category_name(c: PluralCategory) -> Seq<char> {
    match c {
        PluralCategory::Zero => seq!['z', 'e', 'r', 'o'],
        PluralCategory::One => seq!['o', 'n', 'e'],
        PluralCategory::Two => seq!['t', 'w', 'o'],
        PluralCategory::Few => seq!['f', 'e', 'w'],
        PluralCategory::Many => seq!['m', 'a', 'n', 'y'],
        PluralCategory::Other => seq!['o', 't', 'h', 'e', 'r'],
    }
}

impl PluralCategory {
    /// The name of the category: `"zero"`, `"one"`, `"two"`, `"few"`, `"many"` or `"other"`.
    pub fn name(&self) -> (r: &'static str)
        ensures
            r@ == category_name(*self),
    {
        match self {
            PluralCategory::Zero => {
                let r = "zero";
                proof { reveal_strlit("zero"); }
                assert(r@ =~= category_name(*self));
                r
            },
            PluralCategory::One => {
                let r = "one";
                proof { reveal_strlit("one"); }
                assert(r@ =~= category_name(*self));
                r
            },
            PluralCategory::Two => {
                let r = "two";
                proof { reveal_strlit("two"); }
                assert(r@ =~= category_name(*self));
                r
            },
            PluralCategory::Few => {
                let r = "few";
                proof { reveal_strlit("few"); }
                assert(r@ =~= category_name(*self));
                r
            },
            PluralCategory::Many => {
                let r = "many";
                proof { reveal_strlit("many"); }
                assert(r@ =~= category_name(*self));
                r
            },
            PluralCategory::Other => {
                let r = "other";
                proof { reveal_strlit("other"); }
                assert(r@ =~= category_name(*self));
                r
            },
        }
    }
}

/// The category of the first rule in `rules` whose condition holds for `o`;
/// `Other` when none does.
pub open spec fn selected_category(
    rules: Seq<(PluralCategory, Seq<Seq<RelationV>>)>,
    o: PluralOperands,
) -> PluralCategory
    decreases rules.len(),
{
    if rules.len() == 0 {
        PluralCategory::Other
    } else if condition_holds(rules[0].1, o) {
        rules[0].0
    } else {
        selected_category(rules.drop_first(), o)
    }
}

pub open spec fn rules_view(rules: Seq<(PluralCategory, Rule)>) -> Seq<
    (PluralCategory, Seq<Seq<RelationV>>),
> {
    rules.map_values(|p: (PluralCategory, Rule)| (p.0, p.1.condition@))
}

/// Tests the rules in order and returns the category of the first whose
/// condition holds for `o`; `Other` when none does.
pub fn select_category(rules: &Vec<(PluralCategory, Rule)>, o: &PluralOperands) -> (r:
    PluralCategory)
    ensures
        r == selected_category(rules_view(rules@), *o),
{
    let ghost all = rules_view(rules@);
    let mut k: usize = 0;
    assert(all.subrange(0, all.len() as int) =~= all);
    while k < rules.len()
        invariant
            k <= rules@.len(),
            all == rules_view(rules@),
            selected_category(all, *o) == selected_category(all.subrange(k as int, all.len() as int), *o),
        decreases rules.len() - k,
    {
        let ghost rest = all.subrange(k as int, all.len() as int);
        assert(rest.drop_first() =~= all.subrange(k + 1, all.len() as int));
        assert(rest[0] == all[k as int]);
        if test_condition(&rules[k].1.condition, o) {
            return rules[k].0;
        }
        k = k + 1;
    }
    PluralCategory::Other
}

} // verus!
