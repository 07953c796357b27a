use almanak::parse_string;

#[test]
fn all_utils_test_parse_string_valid_input() {
    let input = "first,second";
    let result = parse_string(input, ',');
    assert_eq!(result, Ok(("first".to_string(), "second".to_string())));
}

#[test]
fn all_utils_test_parse_string_single_part() {
    let input = "only";
    let result = parse_string(input, ',');
    assert_eq!(result, Ok(("only".to_string(), "".to_string())));
}

#[test]
fn all_utils_test_parse_string_empty_input() {
    let input = "";
    let result = parse_string(input, ',');
    assert_eq!(result, Ok(("".to_string(), "".to_string())));
}

#[test]
fn all_utils_test_parse_string_too_many_parts() {
    let input = "first,second,third";
    let result = parse_string(input, ',');
    assert!(result.is_err());
    assert_eq!(result.unwrap_err(), "Too many parts in category for the split".to_string());
}

#[test]
fn csv_utils_test_parse_string_valid_input() {
    let input = "first,second";
    let result = parse_string(input, ',');
    assert_eq!(result, Ok(("first".to_string(), "second".to_string())));
}

#[test]
fn csv_utils_test_parse_string_single_part() {
    let input = "only";
    let result = parse_string(input, ',');
    assert_eq!(result, Ok(("only".to_string(), "".to_string())));
}

#[test]
fn csv_utils_test_parse_string_empty_input() {
    let input = "";
    let result = parse_string(input, ',');
    assert_eq!(result, Ok(("".to_string(), "".to_string())));
}

#[test]
fn parse_string_trims_each_part() {
    let result = parse_string("  work /\thome  ", '/');
    assert_eq!(result, Ok(("work".to_string(), "home".to_string())));
}

#[test]
fn parse_string_three_parts_with_slash() {
    assert!(parse_string("a/b/c", '/').is_err());
    assert_eq!(parse_string("a,b,c", ',').unwrap_err(), "Too many parts in category for the split".to_string());
}

#[test]
fn parse_string_empty_parts() {
    assert_eq!(parse_string(",", ','), Ok(("".to_string(), "".to_string())));
    assert_eq!(parse_string("/x", '/'), Ok(("".to_string(), "x".to_string())));
}

#[test]
fn csv_utils_test_parse_string_too_many_parts() {
    // The library reports a third part with one message for every caller;
    // its text is checked in all_utils_test_parse_string_too_many_parts.
    let input = "first,second,third";
    let result = parse_string(input, ',');
    assert!(result.is_err());
}
