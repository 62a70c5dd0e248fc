use lut_synth::rewrite_file::{
    parse_condition_expression, parse_filter_list, parse_next_quoted_string,
    parse_quoted_string, parse_rule_line, parse_rule_lines, FilterList, ParseError,
    RuleDefinition,
};

#[test]
fn test_parse_empty_filter_list() {
    let result = parse_filter_list("FILTER_LIST=\"\"").unwrap();
    assert!(result.is_empty());
}

#[test]
fn test_parse_single_filter() {
    let result = parse_filter_list("FILTER_LIST=\"rule1\"").unwrap();
    assert_eq!(result.len(), 1);
    assert!(result.contains("rule1"));
}

#[test]
fn test_parse_multiple_filters() {
    let result = parse_filter_list("FILTER_LIST=\"rule1\",\"rule2\",\"rule3\"").unwrap();
    assert_eq!(result.len(), 3);
    assert!(result.contains("rule1"));
    assert!(result.contains("rule2"));
    assert!(result.contains("rule3"));
}

#[test]
fn test_parse_filter_with_spaces() {
    let result = parse_filter_list("FILTER_LIST=\"rule1\",\"rule2\"").unwrap();
    assert_eq!(result.len(), 2);
}

#[test]
fn test_parse_quoted_string() {
    let result = parse_quoted_string("\"hello world\"", 1).unwrap();
    assert_eq!(result, "hello world");
}

#[test]
fn test_parse_rule_line() {
    let line = r#""test-rule"; "(LUT ?p ?a ?b)" => "(MUX ?p ?a ?b)""#;
    let rule = parse_rule_line(line, 1).unwrap();
    assert_eq!(rule.name, "test-rule");
    assert_eq!(rule.searcher, "(LUT ?p ?a ?b)");
    assert!(!rule.bidirectional);
    assert_eq!(rule.applier, "(MUX ?p ?a ?b)");
}

#[test]
fn test_parse_rule_bidirectional() {
    let line = r#""test-rule"; "(LUT ?p ?a ?b)" <=> "(MUX ?p ?a ?b)""#;
    let rule = parse_rule_line(line, 1).unwrap();
    assert!(rule.bidirectional);
}

#[test]
fn test_rule_filtering() {
    let mut filter_set = FilterList::new();
    filter_set.insert("excluded".to_string());

    let rule = RuleDefinition {
        name: "excluded".to_string(),
        searcher: "test".to_string(),
        bidirectional: false,
        applier: "test".to_string(),
        conditions: vec![],
    };

    assert!(rule.is_filtered(&filter_set));
}

#[test]
fn filter_list_errors() {
    assert!(matches!(
        parse_filter_list("RULES=\"a\""),
        Err(ParseError::InvalidFilterList(_))
    ));
    assert!(matches!(
        parse_filter_list("FILTER_LIST=\"a,b\""),
        Err(ParseError::InvalidFilterList(_))
    ));
    assert!(matches!(
        parse_filter_list("FILTER_LIST=\"a"),
        Err(ParseError::InvalidFilterList(_))
    ));
    assert!(matches!(
        parse_filter_list("FILTER_LIST=a"),
        Err(ParseError::InvalidFilterList(_))
    ));
}

#[test]
fn filter_list_tolerates_spaces_and_repeats() {
    let result = parse_filter_list("  FILTER_LIST=\"a\" , \"b c\",\"a\",\"\"  ").unwrap();
    assert_eq!(result.len(), 2);
    assert!(result.contains("a"));
    assert!(result.contains("b c"));
    assert!(!result.contains("b"));
}

#[test]
fn rule_line_with_conditions() {
    let line = r#""r"; "(AND ?a ?b)" => "(AND ?b ?a)" if is_const(?a) if is_lut(?b)"#;
    let rule = parse_rule_line(line, 4).unwrap();
    assert_eq!(rule.name, "r");
    assert_eq!(
        rule.conditions,
        vec!["is_const(?a)".to_string(), "is_lut(?b)".to_string()]
    );
}

#[test]
fn rule_line_errors_carry_the_line_number() {
    let skipped = parse_rule_line("   # a comment", 7);
    assert_eq!(
        skipped,
        Err(ParseError::LineError {
            line: 7,
            message: "Skipped (empty or comment)".to_string()
        })
    );
    assert!(matches!(parse_rule_line("", 2), Err(ParseError::LineError { line: 2, .. })));
    for bad in [
        r#""r" "(A)" => "(B)""#,
        r#"r; "(A)" => "(B)""#,
        r#""r"; "(A)" -> "(B)""#,
        r#""r"; "(A)" => (B)"#,
        r#""r"; "(A) => "(B)""#,
    ] {
        assert!(matches!(parse_rule_line(bad, 9), Err(ParseError::LineError { line: 9, .. })));
    }
}

#[test]
fn quoted_string_helpers() {
    let (s, rest) = parse_next_quoted_string("  \"abc\" => x", 1).unwrap();
    assert_eq!(s, "abc");
    assert_eq!(rest, " => x");
    assert!(parse_quoted_string("abc", 3).is_err());
    assert!(parse_quoted_string("\"abc", 3).is_err());
    assert_eq!(
        parse_condition_expression("a > 1 if b"),
        Some(("a > 1".to_string(), "if b"))
    );
    assert_eq!(parse_condition_expression(" c "), Some(("c".to_string(), "")));
    assert_eq!(parse_condition_expression(""), None);
}

#[test]
fn rule_file_excludes_filtered_rules() {
    let lines: Vec<String> = vec![
        "FILTER_LIST=\"lut3-shannon\"".to_string(),
        r#""lut3-shannon"; "(LUT ?p ?a ?b ?c)" => "(LUT 14 (LUT 8 ?p ?a ?b) (LUT 2 ?p ?c))""#
            .to_string(),
        "".to_string(),
        "# comment".to_string(),
        r#""lut4-shannon"; "(LUT ?p ?a ?b ?c ?d)" => "(LUT 14 (LUT 8 ?p ?a ?b) (LUT 2 ?p ?c ?d))""#
            .to_string(),
    ];
    let (filter, rules) = parse_rule_lines(&lines).unwrap();
    assert!(filter.contains("lut3-shannon"));
    assert_eq!(rules.len(), 1);
    assert_eq!(rules[0].name, "lut4-shannon");
}

#[test]
fn rule_file_errors() {
    let empty: Vec<String> = vec![];
    assert!(matches!(parse_rule_lines(&empty), Err(ParseError::InvalidFilterList(_))));
    let lines: Vec<String> = vec![
        "FILTER_LIST=\"\"".to_string(),
        r#""ok"; "(A)" => "(B)""#.to_string(),
        "not a rule".to_string(),
    ];
    assert!(matches!(parse_rule_lines(&lines), Err(ParseError::LineError { line: 3, .. })));
}

#[test]
fn duplicate_rule_names_fail_loading() {
    let lines: Vec<String> = vec![
        "FILTER_LIST=\"\"".to_string(),
        r#""same"; "(A)" => "(B)""#.to_string(),
        r#""same"; "(C)" => "(D)""#.to_string(),
    ];
    assert!(matches!(parse_rule_lines(&lines), Err(ParseError::InvalidRule(_))));
    // A filtered duplicate is not loaded, so it does not clash.
    let filtered: Vec<String> = vec![
        "FILTER_LIST=\"same\"".to_string(),
        r#""same"; "(A)" => "(B)""#.to_string(),
        r#""same"; "(C)" => "(D)""#.to_string(),
    ];
    assert!(parse_rule_lines(&filtered).unwrap().1.is_empty());
}
