use istringscheck::parse::{extract, parse_line, split_lines};

#[test]
fn matching_line_is_parsed() {
    let r = parse_line("\"Hello\" = \"World %@\";");
    assert_eq!(r, Some((String::from("Hello"), 1)));
}

#[test]
fn empty_key_and_value_are_accepted() {
    let r = parse_line("\"\" = \"\";");
    assert_eq!(r, Some((String::from(""), 0)));
}

#[test]
fn comment_line_is_skipped() {
    assert_eq!(parse_line("// comment"), None);
}

#[test]
fn blank_line_is_skipped() {
    assert_eq!(parse_line(""), None);
}

#[test]
fn leading_whitespace_prevents_a_match() {
    assert_eq!(parse_line("  \"Hello\" = \"World\";"), None);
    assert_eq!(parse_line("\"Hello\" = \"World\"; "), None);
}

#[test]
fn missing_semicolon_prevents_a_match() {
    assert_eq!(parse_line("\"Hello\" = \"World\""), None);
}

#[test]
fn the_last_separator_divides_the_line() {
    // Quotes may occur inside the key: the split happens at the last
    // occurrence of `" = "` that still leaves room for the closing `";`.
    let r = parse_line("\"a\" = \"b\" = \"c\";");
    assert_eq!(r, Some((String::from("a\" = \"b"), 0)));
}

#[test]
fn an_unquoted_equals_sign_stays_in_the_value() {
    let r = parse_line("\"k\" = \"a = b\";");
    assert_eq!(r, Some((String::from("k"), 0)));
}

#[test]
fn non_ascii_text_is_parsed_by_character() {
    let r = parse_line("\"héllo\" = \"wörld %@\";");
    assert_eq!(r, Some((String::from("héllo"), 1)));
}

#[test]
fn extraction_ignores_non_matching_lines() {
    let text = "// comment\n\n\"Hello\" = \"World %@\";";
    let table = extract(text);
    assert_eq!(table.len(), 1);
    assert_eq!(table.get(&String::from("Hello")), Some(1));
}

#[test]
fn placeholder_count_is_a_literal_character_count() {
    // Four `%` characters: `%%` counts twice, since the count is not
    // specifier-aware.
    let table = extract("\"Greet\" = \"%1$s says %2$s 100%% done\";");
    assert_eq!(table.get(&String::from("Greet")), Some(4));
}

#[test]
fn later_duplicate_key_overwrites_earlier_one() {
    let text = "\"K\" = \"%@\";\n\"K\" = \"%@ %@ %@\";";
    let table = extract(text);
    assert_eq!(table.len(), 1);
    assert_eq!(table.get(&String::from("K")), Some(3));
}

#[test]
fn extraction_of_unmatched_text_gives_the_empty_table() {
    let table = extract("nothing here\nat all");
    assert_eq!(table.len(), 0);
}

#[test]
fn extraction_is_idempotent() {
    let text = "\"Title\" = \"T %@\";\n// note\n\"Body\" = \"B\";";
    let first = extract(text);
    let second = extract(text);
    assert_eq!(first.len(), second.len());
    let mut keys = first.keys();
    keys.sort();
    let mut keys_again = second.keys();
    keys_again.sort();
    assert_eq!(keys, keys_again);
    for key in keys {
        assert_eq!(first.get(&key), second.get(&key));
    }
}

#[test]
fn lines_are_split_at_newlines() {
    assert_eq!(
        split_lines("a\nb\nc"),
        vec![String::from("a"), String::from("b"), String::from("c")]
    );
}

#[test]
fn a_trailing_newline_opens_no_extra_line() {
    assert_eq!(split_lines("a\n"), vec![String::from("a")]);
    assert_eq!(split_lines("a\n\n"), vec![String::from("a"), String::from("")]);
}

#[test]
fn a_carriage_return_before_the_newline_is_stripped() {
    assert_eq!(split_lines("a\r\nb"), vec![String::from("a"), String::from("b")]);
}

#[test]
fn empty_text_has_no_lines() {
    assert_eq!(split_lines(""), Vec::<String>::new());
}
