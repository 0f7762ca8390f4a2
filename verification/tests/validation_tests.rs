use cli_toolkit::validation::{
    admit_range, admit_rule, bounded_range, first_range_overlap, first_rule_overlap,
    parse_comma_separated_inputs, RangeAdmission, InputValidationEngine, IntegerStringValidationRule,
    IntegerValidationRange, RangeOverlapDetails, ValidationConfiguration, ValidationError,
    ValidationRangeOverlapDetector, ValidationStatus,
};

#[test]
fn test_integer_range_overlap_detection() {
    let range1 = IntegerValidationRange::new(1, 10);
    let range2 = IntegerValidationRange::new(5, 15);
    let range3 = IntegerValidationRange::new(20, 30);

    // Should detect overlap between range1 and range2
    assert!(range1.check_overlap_with_integer_range(&range2).is_some());

    // Should not detect overlap between range1 and range3
    assert!(range1.check_overlap_with_integer_range(&range3).is_none());
}

#[test]
fn test_integer_string_rule_overlap_detection() {
    let rule1 = IntegerStringValidationRule::new(IntegerValidationRange::new(1, 10), 5);
    let rule2 = IntegerStringValidationRule::new(IntegerValidationRange::new(8, 15), 10);
    let rule3 = IntegerStringValidationRule::new(IntegerValidationRange::new(20, 30), 15);

    // Should detect overlap between rule1 and rule2
    assert!(rule1.check_overlap_with_integer_string_rule(&rule2).is_some());

    // Should not detect overlap between rule1 and rule3
    assert!(rule1.check_overlap_with_integer_string_rule(&rule3).is_none());
}

#[test]
fn test_cross_type_overlap_detection() {
    let int_range = IntegerValidationRange::new(1, 10);
    let string_rule = IntegerStringValidationRule::new(IntegerValidationRange::new(5, 15), 20);
    let non_overlapping_rule =
        IntegerStringValidationRule::new(IntegerValidationRange::new(20, 30), 20);

    // Should detect cross-type overlap
    assert!(int_range.check_overlap_with_integer_string_rule(&string_rule).is_some());

    // Should not detect overlap with non-overlapping rule
    assert!(int_range
        .check_overlap_with_integer_string_rule(&non_overlapping_rule)
        .is_none());
}

#[test]
fn test_validation_configuration_overlap_rejection() {
    let overlapping_ranges = vec![
        IntegerValidationRange::new(1, 10),
        IntegerValidationRange::new(5, 15), // Overlaps with first range
    ];
    let rules = vec![];

    // Should reject configuration with overlapping ranges
    assert!(ValidationConfiguration::new(overlapping_ranges, rules, None).is_err());
}

#[test]
fn test_validation_configuration_overlap_acceptance() -> Result<(), ValidationError> {
    let non_overlapping_ranges = vec![
        IntegerValidationRange::new(1, 10),
        IntegerValidationRange::new(20, 30), // Does not overlap
    ];
    let rules = vec![IntegerStringValidationRule::new(
        IntegerValidationRange::new(100, 200), // Does not overlap with ranges
        15,
    )];

    // Should accept configuration with non-overlapping ranges
    let config = ValidationConfiguration::new(non_overlapping_ranges, rules, None)?;
    assert_eq!(config.get_integer_ranges().len(), 2);
    assert_eq!(config.get_integer_string_rules().len(), 1);

    Ok(())
}

#[test]
fn test_comprehensive_overlap_detection() {
    let int_ranges = vec![
        IntegerValidationRange::new(1, 5),
        IntegerValidationRange::new(3, 8), // Overlaps with first
    ];
    let string_rules = vec![IntegerStringValidationRule::new(
        IntegerValidationRange::new(7, 12), // Overlaps with second int range
        10,
    )];

    // Should detect multiple overlaps
    let result =
        ValidationRangeOverlapDetector::detect_all_range_overlaps(&int_ranges, &string_rules);
    assert!(result.is_err());

    if let Err(ValidationError::OverlapError(message)) = result {
        // Should mention multiple overlaps
        assert!(message.contains("2 range overlap(s)"));
    }
}

#[test]
fn test_validation_engine_creation_with_overlaps() {
    let overlapping_ranges = vec![
        IntegerValidationRange::new(1, 10),
        IntegerValidationRange::new(5, 15), // Overlaps
    ];
    let rules = vec![];

    // Should reject engine creation with overlapping ranges
    assert!(InputValidationEngine::new(overlapping_ranges, rules).is_err());
}

#[test]
fn test_range_overlap_details_display() {
    let overlap = RangeOverlapDetails::new(
        "Test overlap".to_string(),
        "range A".to_string(),
        "range B".to_string(),
        5,
        10,
    );

    let display_string = overlap.to_display_string();
    assert!(display_string.contains("Test overlap"));
    assert!(display_string.contains("range A"));
    assert!(display_string.contains("range B"));
    assert!(display_string.contains("[5, 10]"));
}

#[test]
fn test_edge_case_touching_ranges() {
    let range1 = IntegerValidationRange::new(1, 5);
    let range2 = IntegerValidationRange::new(5, 10); // Touches at value 5

    // Touching ranges should be considered overlapping (inclusive bounds)
    assert!(range1.check_overlap_with_integer_range(&range2).is_some());
}

#[test]
fn test_edge_case_adjacent_ranges() {
    let range1 = IntegerValidationRange::new(1, 5);
    let range2 = IntegerValidationRange::new(6, 10); // Adjacent but not touching

    // Adjacent ranges should not be considered overlapping
    assert!(range1.check_overlap_with_integer_range(&range2).is_none());
}

// ---------------------------------------------------------------------
// Further cases
// ---------------------------------------------------------------------

#[test]
fn overlap_details_give_the_common_values() {
    let a = IntegerValidationRange::new(1, 10);
    let b = IntegerValidationRange::new(5, 15);
    let d = a.check_overlap_with_integer_range(&b).unwrap();
    assert_eq!(d.get_overlap_start_value(), 5);
    assert_eq!(d.get_overlap_end_value(), 10);
    assert_eq!(d.get_overlap_description(), "Integer range overlap detected");
    assert_eq!(d.get_first_range_description(), "integer range [1, 10]");
    assert_eq!(d.get_second_range_description(), "integer range [5, 15]");
    assert_eq!(
        d.to_display_string(),
        "Integer range overlap detected: integer range [1, 10] overlaps with integer range [5, 15] in range [5, 10]"
    );
    // the same overlap is found the other way round
    let e = b.check_overlap_with_integer_range(&a).unwrap();
    assert_eq!(e.get_overlap_start_value(), 5);
    assert_eq!(e.get_overlap_end_value(), 10);
}

#[test]
fn overlap_descriptions_of_rules_and_cross_types() {
    let r = IntegerValidationRange::new(-3, 4);
    let u = IntegerStringValidationRule::new(IntegerValidationRange::new(2, 9), 7);
    let d = r.check_overlap_with_integer_string_rule(&u).unwrap();
    assert_eq!(d.get_overlap_description(), "Cross-type range overlap detected");
    assert_eq!(d.get_first_range_description(), "standalone integer range [-3, 4]");
    assert_eq!(
        d.get_second_range_description(),
        "integer-string rule integer range [2, 9] (max string length: 7)"
    );
    assert_eq!((d.get_overlap_start_value(), d.get_overlap_end_value()), (2, 4));

    let w = IntegerStringValidationRule::new(IntegerValidationRange::new(9, 12), 3);
    let e = u.check_overlap_with_integer_string_rule(&w).unwrap();
    assert_eq!(e.get_overlap_description(), "Integer-string rule overlap detected");
    assert_eq!(
        e.get_first_range_description(),
        "integer-string rule with range [2, 9] (max string length: 7)"
    );
    assert_eq!((e.get_overlap_start_value(), e.get_overlap_end_value()), (9, 9));
    assert_eq!(
        u.create_rule_description(),
        "integer-string rule with range [2, 9] and max string length 7"
    );
    assert_eq!(r.create_range_description(), "integer range [-3, 4]");
}

#[test]
fn range_accessors_and_membership() {
    let r = IntegerValidationRange::new(-5, 5);
    assert_eq!(r.get_minimum_value(), -5);
    assert_eq!(r.get_maximum_value(), 5);
    assert!(r.contains_value(-5));
    assert!(r.contains_value(5));
    assert!(!r.contains_value(6));
    assert!(!r.contains_value(-6));
    let u = IntegerStringValidationRule::new(IntegerValidationRange::new(1, 3), 4);
    assert_eq!(u.get_maximum_string_length(), 4);
    assert_eq!(u.get_integer_range().get_maximum_value(), 3);
    assert!(u.validate_pair(2, "abcd"));
    assert!(!u.validate_pair(2, "abcde"));
    assert!(!u.validate_pair(4, "a"));
    // the length is counted in bytes
    assert!(!u.validate_pair(2, "ééé"));
}

#[test]
fn overlap_summary_lists_every_overlap() {
    let int_ranges = vec![IntegerValidationRange::new(1, 5), IntegerValidationRange::new(3, 8)];
    let rules = vec![IntegerStringValidationRule::new(IntegerValidationRange::new(7, 12), 10)];
    let err = ValidationRangeOverlapDetector::detect_all_range_overlaps(&int_ranges, &rules)
        .unwrap_err();
    let text = err.to_display_string();
    assert!(text.starts_with(
        "Range overlap error: Configuration contains 2 range overlap(s) that would cause ambiguous validation:\n\n"
    ));
    assert!(text.ends_with("Please modify your ranges to eliminate these overlaps before proceeding."));
    assert!(text.contains("1. Integer range overlap detected"));
    assert!(text.contains("Overlapping values: 3 to 5"));
    assert!(text.contains("2. Cross-type range overlap detected"));
    assert!(text.contains("Overlapping values: 7 to 8"));
}

#[test]
fn no_overlaps_is_accepted() {
    let ranges = vec![IntegerValidationRange::new(1, 2), IntegerValidationRange::new(3, 4)];
    let rules = vec![
        IntegerStringValidationRule::new(IntegerValidationRange::new(5, 6), 1),
        IntegerStringValidationRule::new(IntegerValidationRange::new(7, 8), 1),
    ];
    assert!(ValidationRangeOverlapDetector::detect_all_range_overlaps(&ranges, &rules).is_ok());
    let empty: Vec<IntegerValidationRange> = vec![];
    assert!(ValidationRangeOverlapDetector::detect_all_range_overlaps(&empty, &[]).is_ok());
}

fn sample_engine() -> InputValidationEngine {
    InputValidationEngine::new(
        vec![IntegerValidationRange::new(1, 10), IntegerValidationRange::new(20, 30)],
        vec![IntegerStringValidationRule::new(IntegerValidationRange::new(100, 200), 5)],
    )
    .unwrap()
}

#[test]
fn engine_checks_single_inputs() {
    let engine = sample_engine();
    assert_eq!(engine.validate_single_input("5"), ValidationStatus::Valid);
    assert_eq!(engine.validate_single_input("15"), ValidationStatus::Invalid);
    assert_eq!(engine.validate_single_input("+25"), ValidationStatus::Valid);
    assert_eq!(engine.validate_single_input("150:hello"), ValidationStatus::Valid);
    assert_eq!(engine.validate_single_input("150:toolong"), ValidationStatus::Invalid);
    assert_eq!(engine.validate_single_input("{150}:'abc'"), ValidationStatus::Valid);
    assert_eq!(engine.validate_single_input("150 : \"abc\""), ValidationStatus::Valid);
    assert_eq!(engine.validate_single_input("5:abc"), ValidationStatus::Invalid);
    assert_eq!(engine.validate_single_input("abc"), ValidationStatus::Invalid);
    assert_eq!(engine.validate_single_input("1:2:3"), ValidationStatus::Invalid);
    assert_eq!(engine.validate_single_input(""), ValidationStatus::Invalid);
    assert_eq!(engine.validate_single_input("99999999999"), ValidationStatus::Invalid);
}

#[test]
fn engine_checks_many_inputs() {
    let engine = sample_engine();
    let inputs: Vec<String> = vec![" 5".to_string(), "15".to_string(), "5 ".to_string(), "120:ab".to_string()];
    let results = engine.validate_multiple_inputs(&inputs);
    assert_eq!(results.len(), 3);
    assert_eq!(results[0], ("5".to_string(), ValidationStatus::Valid));
    assert_eq!(results[1], ("15".to_string(), ValidationStatus::Invalid));
    assert_eq!(results[2], ("120:ab".to_string(), ValidationStatus::Valid));
}

#[test]
fn statuses_and_errors_read_as_text() {
    assert_eq!(ValidationStatus::Valid.to_display_string(), "valid");
    assert_eq!(ValidationStatus::Invalid.to_display_string(), "invalid");
    let cases = vec![
        (ValidationError::ParseError("x".to_string()), "Parse error: x"),
        (ValidationError::IoError("x".to_string()), "I/O error: x"),
        (ValidationError::ConfigurationError("x".to_string()), "Configuration error: x"),
        (ValidationError::FileError("x".to_string()), "File error: x"),
        (ValidationError::JsonError("x".to_string()), "JSON error: x"),
        (ValidationError::OverlapError("x".to_string()), "Range overlap error: x"),
    ];
    for (e, text) in cases {
        assert_eq!(e.to_display_string(), text);
    }
}

#[test]
fn comma_separated_inputs_are_trimmed_and_nonempty() {
    assert_eq!(
        parse_comma_separated_inputs(" 1, 2 ,,  , 150:abc ,"),
        vec!["1".to_string(), "2".to_string(), "150:abc".to_string()]
    );
    assert!(parse_comma_separated_inputs("").is_empty());
}

#[test]
fn engine_and_configuration_convert() {
    let engine = sample_engine();
    let config = engine.to_configuration(Some("sample".to_string())).unwrap();
    assert_eq!(config.get_configuration_name(), Some(&"sample".to_string()));
    assert_eq!(config.get_integer_ranges().len(), 2);
    assert!(config.validate_configuration_for_overlaps().is_ok());
    let again = InputValidationEngine::from_configuration(&config);
    assert_eq!(again.validate_single_input("25"), ValidationStatus::Valid);
}

#[test]
fn entered_ranges_are_checked_against_earlier_ones() {
    let earlier = vec![IntegerValidationRange::new(1, 5), IntegerValidationRange::new(10, 20)];
    assert!(first_range_overlap(&IntegerValidationRange::new(6, 9), &earlier).is_none());
    let d = first_range_overlap(&IntegerValidationRange::new(4, 12), &earlier).unwrap();
    // the first overlapping range is reported, the new range first
    assert_eq!(d.get_first_range_description(), "integer range [4, 12]");
    assert_eq!(d.get_second_range_description(), "integer range [1, 5]");
    assert_eq!((d.get_overlap_start_value(), d.get_overlap_end_value()), (4, 5));
    assert!(first_range_overlap(&IntegerValidationRange::new(4, 12), &[]).is_none());
}

#[test]
fn entered_rules_are_checked_against_rules_then_ranges() {
    let rules = vec![IntegerStringValidationRule::new(IntegerValidationRange::new(100, 110), 3)];
    let ranges = vec![IntegerValidationRange::new(1, 5)];
    let free = IntegerStringValidationRule::new(IntegerValidationRange::new(50, 60), 2);
    assert!(first_rule_overlap(&free, &rules, &ranges).is_none());
    let both = IntegerStringValidationRule::new(IntegerValidationRange::new(3, 105), 2);
    let d = first_rule_overlap(&both, &rules, &ranges).unwrap();
    assert_eq!(d.get_overlap_description(), "Integer-string rule overlap detected");
    assert_eq!((d.get_overlap_start_value(), d.get_overlap_end_value()), (100, 105));
    let low = IntegerStringValidationRule::new(IntegerValidationRange::new(0, 2), 2);
    let e = first_rule_overlap(&low, &rules, &ranges).unwrap();
    assert_eq!(e.get_overlap_description(), "Cross-type range overlap detected");
    assert_eq!(e.get_first_range_description(), "standalone integer range [1, 5]");
    assert_eq!((e.get_overlap_start_value(), e.get_overlap_end_value()), (1, 2));
}

#[test]
fn entering_ranges_keeps_them_apart() {
    let mut ranges: Vec<IntegerValidationRange> = vec![];
    assert!(matches!(admit_range(&mut ranges, 5, 1), RangeAdmission::MinAboveMax));
    assert!(matches!(admit_range(&mut ranges, 1, 5), RangeAdmission::Added));
    match admit_range(&mut ranges, 5, 9) {
        RangeAdmission::Overlap(d) => assert_eq!((d.get_overlap_start_value(), d.get_overlap_end_value()), (5, 5)),
        _ => panic!("expected an overlap"),
    }
    assert!(matches!(admit_range(&mut ranges, 6, 9), RangeAdmission::Added));
    assert_eq!(ranges, vec![IntegerValidationRange::new(1, 5), IntegerValidationRange::new(6, 9)]);
    assert!(ValidationConfiguration::new(ranges, vec![], None).is_ok());
}

#[test]
fn entering_rules_keeps_them_apart() {
    let ranges = vec![IntegerValidationRange::new(1, 5)];
    let mut rules: Vec<IntegerStringValidationRule> = vec![];
    assert!(bounded_range(3, 2).is_none());
    let r = bounded_range(10, 20).unwrap();
    assert!(admit_rule(&mut rules, &ranges, IntegerStringValidationRule::new(r, 4)).is_none());
    let clash = IntegerStringValidationRule::new(bounded_range(20, 30).unwrap(), 1);
    assert!(admit_rule(&mut rules, &ranges, clash).is_some());
    let cross = IntegerStringValidationRule::new(bounded_range(0, 1).unwrap(), 1);
    assert!(admit_rule(&mut rules, &ranges, cross).is_some());
    assert_eq!(rules.len(), 1);
    assert!(ValidationConfiguration::new(ranges, rules, None).is_ok());
}

#[test]
fn overlap_reports_compare_by_content() {
    let a = IntegerValidationRange::new(1, 10);
    let b = IntegerValidationRange::new(5, 15);
    let d = a.check_overlap_with_integer_range(&b).unwrap();
    let e = a.check_overlap_with_integer_range(&b).unwrap();
    assert!(d == e);
    let f = b.check_overlap_with_integer_range(&a).unwrap();
    assert!(d != f);
}
