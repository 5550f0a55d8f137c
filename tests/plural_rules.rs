use plural_rules::ast::{
    AndCondition, Condition, DecimalValue, Expression, Operand, Operator, RangeList,
    RangeListItem, Relation, Rule, SampleList, SampleRange, Samples, Value,
};
use plural_rules::eval::{select_category, test_condition, PluralCategory};
use plural_rules::operands::PluralOperands;
use plural_rules::parser::{parse, parse_condition, ParseErrorKind};
use plural_rules::samples::validate;
use plural_rules::serializer::{condition_to_bytes, rule_to_bytes};

fn cond(text: &str) -> Condition {
    parse_condition(text.as_bytes()).expect("condition parses")
}

fn num(text: &str) -> PluralOperands {
    PluralOperands::from_decimal_text(text).expect("numeral reads")
}

fn relation(operand: Operand, modulus: Option<u64>, operator: Operator, items: Vec<RangeListItem>) -> Relation {
    Relation {
        expression: Expression { operand, modulus: modulus.map(Value) },
        operator,
        range_list: RangeList(items),
    }
}

#[test]
fn parses_single_relation() {
    let expected = Condition(vec![AndCondition(vec![relation(
        Operand::I,
        None,
        Operator::Eq,
        vec![RangeListItem::Value(Value(1))],
    )])]);
    assert_eq!(cond("i = 1"), expected);
    assert_eq!(cond("  i=1 "), expected);
}

#[test]
fn parses_rule_with_samples() {
    let condition = Condition(vec![
        AndCondition(vec![relation(Operand::I, None, Operator::Eq, vec![RangeListItem::Value(Value(5))])]),
        AndCondition(vec![relation(Operand::V, None, Operator::Eq, vec![RangeListItem::Value(Value(2))])]),
    ]);
    let samples = Samples {
        integer: Some(SampleList {
            sample_ranges: vec![SampleRange { lower_val: DecimalValue("2".to_string()), upper_val: None }],
            ellipsis: true,
        }),
        decimal: Some(SampleList {
            sample_ranges: vec![SampleRange { lower_val: DecimalValue("2.5".to_string()), upper_val: None }],
            ellipsis: false,
        }),
    };
    let expected = Rule { condition, samples: Some(samples) };
    assert_eq!(parse("i = 5 or v = 2 @integer 2, … @decimal 2.5".as_bytes()).unwrap(), expected);
    assert_eq!(parse("i = 5 or v = 2 @integer 2, ... @decimal 2.5".as_bytes()).unwrap(), expected);
}

#[test]
fn parses_modulus_ranges_and_not_equal() {
    let c = cond("n % 100 != 11..13, 15 and f = 0");
    let expected = Condition(vec![AndCondition(vec![
        relation(
            Operand::N,
            Some(100),
            Operator::NotEq,
            vec![RangeListItem::Range(Value(11), Value(13)), RangeListItem::Value(Value(15))],
        ),
        relation(Operand::F, None, Operator::Eq, vec![RangeListItem::Value(Value(0))]),
    ])]);
    assert_eq!(c, expected);
}

#[test]
fn parses_sample_ranges_keeping_trailing_zeros() {
    let r = parse(b"@integer 0~15, 100 @decimal 0.0~1.50, 10.0, ...").unwrap();
    assert_eq!(r.condition, Condition(vec![]));
    let s = r.samples.unwrap();
    let ints = s.integer.unwrap();
    assert_eq!(ints.sample_ranges.len(), 2);
    assert_eq!(ints.sample_ranges[0].lower_val, DecimalValue("0".to_string()));
    assert_eq!(ints.sample_ranges[0].upper_val, Some(DecimalValue("15".to_string())));
    assert!(!ints.ellipsis);
    let decs = s.decimal.unwrap();
    assert_eq!(decs.sample_ranges[0].upper_val, Some(DecimalValue("1.50".to_string())));
    assert_eq!(decs.sample_ranges[1].lower_val, DecimalValue("10.0".to_string()));
    assert!(decs.ellipsis);
}

#[test]
fn rule_without_samples_has_none() {
    let r = parse(b"i = 1 and v = 0").unwrap();
    assert_eq!(r.samples, None);
    assert_eq!(r.condition, cond("i = 1 and v = 0"));
}

#[test]
fn empty_input_is_the_empty_condition() {
    assert_eq!(cond(""), Condition(vec![]));
    assert_eq!(parse(b"   ").unwrap(), Rule { condition: Condition(vec![]), samples: None });
}

#[test]
fn error_unexpected_end() {
    let e = parse_condition(b"i = ").unwrap_err();
    assert_eq!(e.kind, ParseErrorKind::UnexpectedEnd);
    assert_eq!(e.offset, 4);
}

#[test]
fn error_unknown_operand() {
    let e = parse_condition(b"x = 1").unwrap_err();
    assert_eq!(e.kind, ParseErrorKind::UnknownOperand);
    assert_eq!(e.offset, 0);
}

#[test]
fn error_invalid_operator() {
    let e = parse_condition(b"i ! 1").unwrap_err();
    assert_eq!(e.kind, ParseErrorKind::InvalidOperator);
    assert_eq!(e.offset, 2);
}

#[test]
fn error_value_overflow() {
    let e = parse_condition(b"i = 18446744073709551616").unwrap_err();
    assert_eq!(e.kind, ParseErrorKind::ValueOverflow);
    assert_eq!(e.offset, 4);
    assert!(parse_condition(b"i = 18446744073709551615").is_ok());
}

#[test]
fn error_invalid_range() {
    let e = parse_condition(b"i = 3..1").unwrap_err();
    assert_eq!(e.kind, ParseErrorKind::InvalidRange);
    assert!(parse_condition(b"i = 3..3").is_ok());
}

#[test]
fn error_unexpected_character() {
    let e = parse_condition(b"i = 1 $").unwrap_err();
    assert_eq!(e.kind, ParseErrorKind::UnexpectedCharacter);
    assert_eq!(e.offset, 6);
    let e = parse_condition(b"i = 1 or").unwrap_err();
    assert_eq!(e.kind, ParseErrorKind::UnexpectedEnd);
    let e = parse_condition(b"i = 1 @integer 1").unwrap_err();
    assert_eq!(e.kind, ParseErrorKind::UnexpectedCharacter);
    let e = parse(b"i = 1 @decimal 1.5 @integer 1").unwrap_err();
    assert_eq!(e.kind, ParseErrorKind::UnexpectedCharacter);
}

#[test]
fn operands_of_one_point_fifty() {
    let o = num("1.50");
    assert_eq!((o.i, o.v, o.w, o.f, o.t, o.c), (1, 2, 1, 50, 5, 0));
}

#[test]
fn operands_with_and_without_trailing_zeros() {
    let o = num("1.0");
    assert_eq!((o.i, o.v, o.w, o.f, o.t), (1, 1, 0, 0, 0));
    let o = num("2.05");
    assert_eq!((o.i, o.v, o.w, o.f, o.t), (2, 2, 2, 5, 5));
    let o = num("17");
    assert_eq!((o.i, o.v, o.w, o.f, o.t), (17, 0, 0, 0, 0));
    assert_eq!(PluralOperands::from_parts(3, 400, 4), num("3.0400"));
    assert_eq!(PluralOperands::from_integer(9), num("9"));
}

#[test]
fn operands_reject_malformed_numerals() {
    assert_eq!(PluralOperands::from_decimal_text(""), None);
    assert_eq!(PluralOperands::from_decimal_text("1."), None);
    assert_eq!(PluralOperands::from_decimal_text(".5"), None);
    assert_eq!(PluralOperands::from_decimal_text("1.2.3"), None);
    assert_eq!(PluralOperands::from_decimal_text("1a"), None);
    assert_eq!(PluralOperands::from_decimal_text("18446744073709551616"), None);
    assert!(PluralOperands::from_decimal_text("18446744073709551615").is_some());
}

#[test]
fn i_equals_one_ignores_fraction() {
    let c = cond("i = 1");
    assert!(test_condition(&c, &num("1")));
    assert!(test_condition(&c, &num("1.0")));
    assert!(test_condition(&c, &num("1.75")));
    assert!(!test_condition(&c, &num("2")));
}

#[test]
fn n_with_fraction_equals_no_integer() {
    let c = cond("n = 1");
    assert!(test_condition(&c, &num("1.0")));
    assert!(!test_condition(&c, &num("1.5")));
    assert!(test_condition(&cond("n != 1"), &num("1.5")));
    assert!(!test_condition(&cond("n = 1..2"), &num("1.5")));
}

#[test]
fn or_condition_matches_either_side() {
    let c = cond("i = 5 or v = 2");
    assert!(test_condition(&c, &num("5")));
    assert!(test_condition(&c, &num("1.25")));
    assert!(!test_condition(&c, &num("3.1")));
}

#[test]
fn range_one_to_three() {
    let c = cond("i = 1..3");
    for k in 1..=3u64 {
        assert!(test_condition(&c, &PluralOperands::from_integer(k)));
    }
    assert!(!test_condition(&c, &PluralOperands::from_integer(0)));
    assert!(!test_condition(&c, &PluralOperands::from_integer(4)));
}

#[test]
fn empty_condition_always_holds() {
    let c = Condition(vec![]);
    assert!(test_condition(&c, &num("0")));
    assert!(test_condition(&c, &num("3.14")));
    assert!(test_condition(&c, &PluralOperands::from_integer(u64::MAX)));
    assert!(test_condition(&Condition(vec![AndCondition(vec![])]), &num("7")));
}

#[test]
fn and_condition_with_modulus() {
    let c = cond("v = 0 and i % 10 = 1");
    assert!(test_condition(&c, &num("21")));
    assert!(!test_condition(&c, &num("21.5")));
    assert!(test_condition(&c, &num("11")));
    assert!(!test_condition(&c, &num("12")));
}

#[test]
fn modulus_zero_has_no_value() {
    assert!(!test_condition(&cond("i % 0 = 0"), &num("5")));
    assert!(test_condition(&cond("i % 0 != 0"), &num("5")));
}

#[test]
fn other_operands() {
    let o = num("1.50");
    assert!(test_condition(&cond("f = 50 and t = 5 and w = 1 and v = 2"), &o));
    assert!(test_condition(&cond("c = 0 and e = 0"), &o));
    let mut compact = PluralOperands::from_integer(1000000);
    compact.c = 6;
    assert!(test_condition(&cond("e = 6"), &compact));
    assert!(test_condition(&cond("c = 3..6"), &compact));
}

#[test]
fn samples_that_satisfy_the_rule_validate() {
    let r = parse("v = 0 and i % 10 = 1 @integer 1, 21, 31, …".as_bytes()).unwrap();
    assert_eq!(validate(&r), Ok(()));
}

#[test]
fn sample_two_is_rejected() {
    let r = parse(b"v = 0 and i % 10 = 1 @integer 1, 2, 21, ...").unwrap();
    let failures = validate(&r).unwrap_err();
    assert_eq!(failures.len(), 1);
    assert!(failures[0].integer);
    assert_eq!(failures[0].range_index, 1);
    assert_eq!(failures[0].operands, Some(PluralOperands::from_integer(2)));
}

#[test]
fn sample_ranges_are_checked_throughout() {
    let ok = parse(b"i = 2..17 @integer 2~17").unwrap();
    assert_eq!(validate(&ok), Ok(()));
    let bad = parse(b"i = 2..17 and i != 9 @integer 2~17").unwrap();
    let failures = validate(&bad).unwrap_err();
    assert_eq!(failures.len(), 1);
    assert_eq!(failures[0].operands, Some(PluralOperands::from_integer(9)));
    let dec = parse(b"v = 1 and i = 0 @decimal 0.0~0.9").unwrap();
    assert_eq!(validate(&dec), Ok(()));
    let dec_bad = parse(b"v = 1 and i = 0 and f != 4 @decimal 0.0~0.9").unwrap();
    let failures = validate(&dec_bad).unwrap_err();
    assert_eq!(failures[0].operands, Some(num("0.4")));
}

#[test]
fn unreadable_sample_is_reported() {
    let r = Rule {
        condition: Condition(vec![]),
        samples: Some(Samples {
            integer: None,
            decimal: Some(SampleList {
                sample_ranges: vec![SampleRange { lower_val: DecimalValue("x".to_string()), upper_val: None }],
                ellipsis: false,
            }),
        }),
    };
    let failures = validate(&r).unwrap_err();
    assert_eq!(failures.len(), 1);
    assert!(!failures[0].integer);
    assert_eq!(failures[0].operands, None);
}

#[test]
fn category_selection_first_match_wins() {
    let rules = vec![
        (PluralCategory::One, parse(b"i = 1 and v = 0").unwrap()),
        (PluralCategory::Other, parse(b"").unwrap()),
    ];
    assert_eq!(select_category(&rules, &num("1")), PluralCategory::One);
    assert_eq!(select_category(&rules, &num("1.5")), PluralCategory::Other);
    assert_eq!(select_category(&rules, &num("2")), PluralCategory::Other);
    assert_eq!(select_category(&rules, &num("1")).name(), "one");
    assert_eq!(select_category(&rules, &num("2")).name(), "other");
}

#[test]
fn category_selection_defaults_to_other() {
    let rules = vec![(PluralCategory::Few, parse(b"i = 2..4").unwrap())];
    assert_eq!(select_category(&rules, &num("3")), PluralCategory::Few);
    assert_eq!(select_category(&rules, &num("5")), PluralCategory::Other);
    assert_eq!(select_category(&vec![], &num("5")), PluralCategory::Other);
    assert_eq!(PluralCategory::Zero.name(), "zero");
    assert_eq!(PluralCategory::Two.name(), "two");
    assert_eq!(PluralCategory::Many.name(), "many");
}

#[test]
fn printed_rule_text() {
    let r = parse("i = 5 or v = 2 @integer 2, … @decimal 2.5".as_bytes()).unwrap();
    assert_eq!(rule_to_bytes(&r), b"i = 5 or v = 2 @integer 2 , ... @decimal 2.5 ".to_vec());
    let c = cond("n%100!=11..13,15 and i = 007");
    assert_eq!(condition_to_bytes(&c), b"n % 100 != 11 .. 13 , 15 and i = 7 ".to_vec());
    assert_eq!(condition_to_bytes(&Condition(vec![])), Vec::<u8>::new());
}

#[test]
fn round_trip_preserves_rules() {
    let texts = [
        "i = 1 and v = 0 @integer 1 @decimal 0.0~1.50, 10.00, …",
        "n % 10 = 3..4,9 and n % 100 != 10..19,70..79,90..99 @integer 3, 4, 9, 23, …",
        "v = 0 and i % 10 = 2..4 and i % 100 != 12..14 or f % 10 = 2..4 and f % 100 != 12..14",
        "c = 0 and i != 0 and i % 1000000 = 0 and v = 0 or c != 0..5",
        "@integer 0, 5~19, 100, 1000, … @decimal 0.1~0.9",
        "",
    ];
    for text in texts.iter() {
        let r = parse(text.as_bytes()).unwrap();
        let printed = rule_to_bytes(&r);
        assert_eq!(parse(&printed).unwrap(), r);
        assert_eq!(rule_to_bytes(&parse(&printed).unwrap()), printed);
    }
}
