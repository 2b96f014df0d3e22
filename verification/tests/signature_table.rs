use fraken_x::errors::FormatError;
use fraken_x::magic::{find_file_type, parse_definitions_file};

#[test]
fn test_parse_definitions_file_valid() {
    let test_file_content = "# Comments\nCA FE;Java Class\n5B 30 30;MimiLSA\n";
    let (definitions, max_len) = parse_definitions_file(test_file_content).unwrap();
    assert_eq!(definitions.len(), 2);
    assert_eq!(max_len, 3); // Check max length
}

#[test]
fn test_parse_definitions_file_empty() {
    let test_file_content = "";
    let (definitions, _) = parse_definitions_file(test_file_content).unwrap();
    assert_eq!(definitions.len(), 0);
}

#[test]
fn test_parse_definitions_file_comments_only() {
    let test_file_content = "# Comment 1\n# Comment 2";
    let (definitions, _) = parse_definitions_file(test_file_content).unwrap();
    assert_eq!(definitions.len(), 0);
}

#[test]
fn test_parse_definitions_file_invalid_format() {
    let test_file_content = "CA FE Java Class"; // Missing semicolon
    let result = parse_definitions_file(test_file_content);
    assert!(result.is_err());
}

#[test]
fn test_parse_definitions_file_invalid_hex() {
    let test_file_content = "CA FG;Java Class"; // Invalid hex value
    let result = parse_definitions_file(test_file_content);
    assert!(result.is_err());
}

#[test]
fn parsed_entries_keep_file_order_and_values() {
    let content = "CA FE;Java Class\n5B 30 30;MimiLSA\n";
    let (definitions, max_len) = parse_definitions_file(content).unwrap();
    assert_eq!(definitions[0].0, vec![0xCAu8, 0xFEu8]);
    assert_eq!(definitions[0].1, "Java Class");
    assert_eq!(definitions[1].0, vec![0x5Bu8, 0x30u8, 0x30u8]);
    assert_eq!(definitions[1].1, "MimiLSA");
    assert_eq!(max_len, 3);
}

#[test]
fn max_pattern_len_is_longest_pattern() {
    let content = "AA;one\nBB CC DD EE;four\nFF 00;two\n";
    let (definitions, max_len) = parse_definitions_file(content).unwrap();
    assert_eq!(definitions.len(), 3);
    assert_eq!(max_len, 4);
}

#[test]
fn empty_source_has_zero_max_len() {
    let (definitions, max_len) = parse_definitions_file("").unwrap();
    assert!(definitions.is_empty());
    assert_eq!(max_len, 0);
}

#[test]
fn extra_separator_is_a_format_error() {
    let result = parse_definitions_file("CA FE;Java;Class");
    assert!(matches!(result, Err(FormatError::BadLine { .. })));
}

#[test]
fn missing_separator_names_the_line() {
    let result = parse_definitions_file("CA FE Java Class");
    match result {
        Err(FormatError::BadLine { line }) => assert_eq!(line, "CA FE Java Class"),
        _ => panic!("expected a format error naming the line"),
    }
}

#[test]
fn empty_pattern_is_a_format_error() {
    let result = parse_definitions_file(";Java Class");
    assert!(matches!(result, Err(FormatError::BadLine { .. })));
}

#[test]
fn bad_hex_token_is_a_hex_error() {
    let result = parse_definitions_file("CA FG;Java Class");
    assert!(matches!(result, Err(FormatError::BadHexToken { .. })));
}

#[test]
fn hex_value_above_byte_range_is_a_hex_error() {
    let result = parse_definitions_file("1FF;Too Big");
    assert!(matches!(result, Err(FormatError::BadHexToken { .. })));
}

#[test]
fn first_bad_line_wins() {
    let result = parse_definitions_file("CA FE;ok\nno separator here\nCA FG;bad hex\n");
    match result {
        Err(FormatError::BadLine { line }) => assert_eq!(line, "no separator here"),
        _ => panic!("expected the earlier format error"),
    }
}

#[test]
fn file_type_resolves_first_matching_prefix() {
    let content = "CA FE;Java Class\n5B 30 30;MimiLSA\n";
    let (definitions, _) = parse_definitions_file(content).unwrap();
    let buffer = vec![0xCAu8, 0xFEu8, 0xBAu8, 0xBEu8];
    let label = find_file_type(&definitions, &buffer);
    assert_eq!(label.as_deref(), Some("Java Class"));
}

#[test]
fn file_type_unmatched_prefix_gives_no_label() {
    let content = "CA FE;Java Class\n5B 30 30;MimiLSA\n";
    let (definitions, _) = parse_definitions_file(content).unwrap();
    let buffer = vec![0x00u8, 0x11u8, 0x22u8];
    assert_eq!(find_file_type(&definitions, &buffer), None);
}

#[test]
fn tie_break_takes_first_table_entry_not_longest_pattern() {
    let content = "CA;Short First\nCA FE BA;Long Later\n";
    let (definitions, _) = parse_definitions_file(content).unwrap();
    let buffer = vec![0xCAu8, 0xFEu8, 0xBAu8];
    assert_eq!(
        find_file_type(&definitions, &buffer).as_deref(),
        Some("Short First")
    );
}

#[test]
fn short_read_matches_as_is() {
    let content = "CA FE;Java Class\nCA;Just One\n";
    let (definitions, _) = parse_definitions_file(content).unwrap();
    // A one-byte buffer cannot carry the two-byte pattern but carries the
    // one-byte one.
    let buffer = vec![0xCAu8];
    assert_eq!(find_file_type(&definitions, &buffer).as_deref(), Some("Just One"));
    // An empty buffer matches nothing: patterns are never empty.
    let empty: Vec<u8> = Vec::new();
    assert_eq!(find_file_type(&definitions, &empty), None);
}

#[test]
fn lowercase_hex_and_plus_signs_parse() {
    let (definitions, max_len) = parse_definitions_file("ca fe 0A;mixed\n").unwrap();
    assert_eq!(definitions[0].0, vec![0xCAu8, 0xFEu8, 0x0Au8]);
    assert_eq!(max_len, 3);
}
