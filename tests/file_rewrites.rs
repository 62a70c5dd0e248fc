use lut_synth::rewrite_file::parse_rule_lines;

#[test]
fn test_trait_exists() {
    // The rule-file reader is reachable from outside the crate.
    let lines: Vec<String> = vec!["FILTER_LIST=\"\"".to_string()];
    assert!(parse_rule_lines(&lines).is_ok());
}
