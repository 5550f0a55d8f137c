//! Syntax tree of a plural rule, with a mathematical view of every node.
use vstd::prelude::*;

verus! {

/// A complete plural rule: a condition and, optionally, the example numbers
/// that the condition is meant to accept.
#[derive(Debug, Clone, PartialEq)]
pub struct Rule {
    pub condition: Condition,
    pub samples: Option<Samples>,
}

/// A disjunction of [`AndCondition`]s. An empty condition holds for every number.
#[derive(Debug, Clone, PartialEq)]
pub struct Condition(pub Vec<AndCondition>);

/// A conjunction of [`Relation`]s.
#[derive(Debug, Clone, PartialEq)]
pub struct AndCondition(pub Vec<Relation>);

/// `expression (= | !=) range_list`.
#[derive(Debug, Clone, PartialEq)]
pub struct Relation {
    pub expression: Expression,
    pub operator: Operator,
    pub range_list: RangeList,
}

/// Relation operators: `Eq` is `=`, `NotEq` is `!=`.
#[derive(Debug, Clone, Copy, PartialEq, Eq, Structural)]
pub enum Operator {
    Eq,
    NotEq,
}

/// An operand, optionally reduced modulo a value (`i % 100`).
#[derive(Debug, Clone, Copy, PartialEq, Eq, Structural)]
pub struct Expression {
    pub operand: Operand,
    pub modulus: Option<Value>,
}

/// The numeric facets of a number that a rule can test.
#[derive(Debug, Clone, Copy, PartialEq, Eq, Structural)]
pub enum Operand {
    /// Absolute value of the number
    N,
    /// Integer part, fraction truncated
    I,
    /// Number of visible fraction digits, trailing zeros included
    V,
    /// Number of visible fraction digits, trailing zeros excluded
    W,
    /// Visible fraction digits, trailing zeros included
    F,
    /// Visible fraction digits, trailing zeros excluded
    T,
    /// Exponent of the power of ten used in compact decimal formatting
    C,
    /// Currently a synonym for `C`
    E,
}

/// A set of accepted values, written as a list of values and inclusive ranges.
#[derive(Debug, Clone, PartialEq)]
pub struct RangeList(pub Vec<RangeListItem>);

/// One entry of a [`RangeList`]: an inclusive range `lo..hi` or a single value.
#[derive(Debug, Clone, Copy, PartialEq, Eq, Structural)]
pub enum RangeListItem {
    Range(Value, Value),
    Value(Value),
}

/// A non-negative integer literal.
#[derive(Debug, Clone, Copy, PartialEq, Eq, PartialOrd, Structural)]
pub struct Value(pub u64);

/// The example numbers bundled with a rule.
#[derive(Debug, Clone, PartialEq)]
pub struct Samples {
    pub integer: Option<SampleList>,
    pub decimal: Option<SampleList>,
}

/// A list of sample ranges; `ellipsis` marks the list as not exhaustive.
#[derive(Debug, Clone, PartialEq)]
pub struct SampleList {
    pub sample_ranges: Vec<SampleRange>,
    pub ellipsis: bool,
}

/// A single sample, or an inclusive range `lower_val~upper_val` of samples.
#[derive(Debug, Clone, PartialEq)]
pub struct SampleRange {
    pub lower_val: DecimalValue,
    pub upper_val: Option<DecimalValue>,
}

/// The text of a decimal numeral, kept as written (`"2.50"` keeps its zero).
#[derive(Debug, Clone, PartialEq)]
pub struct DecimalValue(pub String);

/// The view of a [`Relation`].
pub struct RelationV {
    pub expression: Expression,
    pub operator: Operator,
    pub range_list: Seq<RangeListItem>,
}

/// The view of a [`SampleRange`].
pub struct SampleRangeV {
    pub lower: Seq<char>,
    pub upper: Option<Seq<char>>,
}

/// The view of a [`SampleList`].
pub struct SampleListV {
    pub ranges: Seq<SampleRangeV>,
    pub ellipsis: bool,
}

/// The view of [`Samples`].
pub struct SamplesV {
    pub integer: Option<SampleListV>,
    pub decimal: Option<SampleListV>,
}

/// The view of a [`Rule`].
pub struct RuleV {
    pub condition: Seq<Seq<RelationV>>,
    pub samples: Option<SamplesV>,
}

impl View for RangeList {
    type V = Seq<RangeListItem>;

    open spec fn view(&self) -> Seq<RangeListItem> {
        self.0@
    }
}

impl View for Relation {
    type V = RelationV;

    open spec fn view(&self) -> RelationV {
        RelationV {
            expression: self.expression,
            operator: self.operator,
            range_list: self.range_list@,
        }
    }
}

impl View for AndCondition {
    type V = Seq<RelationV>;

    open spec fn view(&self) -> Seq<RelationV> {
        self.0@.map_values(|r: Relation| r@)
    }
}

impl View for Condition {
    type V = Seq<Seq<RelationV>>;

    open spec fn view(&self) -> Seq<Seq<RelationV>> {
        self.0@.map_values(|a: AndCondition| a@)
    }
}

impl View for DecimalValue {
    type V = Seq<char>;

    open spec fn view(&self) -> Seq<char> {
        self.0@
    }
}

impl View for SampleRange {
    type V = SampleRangeV;

    open spec fn view(&self) -> SampleRangeV {
        SampleRangeV {
            lower: self.lower_val@,
            upper: match self.upper_val {
                Some(u) => Some(u@),
                None => None,
            },
        }
    }
}

impl View for SampleList {
    type V = SampleListV;

    open spec fn view(&self) -> SampleListV {
        SampleListV {
            ranges: self.sample_ranges@.map_values(|r: SampleRange| r@),
            ellipsis: self.ellipsis,
        }
    }
}

pub open spec fn opt_list_view(l: Option<SampleList>) -> Option<SampleListV> {
    match l {
        Some(l) => Some(l@),
        None => None,
    }
}

impl View for Samples {
    type V = SamplesV;

    open spec fn view(&self) -> SamplesV {
        SamplesV { integer: opt_list_view(self.integer), decimal: opt_list_view(self.decimal) }
    }
}

impl View for Rule {
    type V = RuleV;

    open spec fn view(&self) -> RuleV {
        RuleV {
            condition: self.condition@,
            samples: match self.samples {
                Some(s) => Some(s@),
                None => None,
            },
        }
    }
}

} // verus!
