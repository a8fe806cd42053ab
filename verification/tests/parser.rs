use flashcards::parser::parse_csv_line;

#[test]
fn empty_line_gives_no_record() {
    assert_eq!(parse_csv_line(""), None);
}

#[test]
fn plain_two_fields() {
    assert_eq!(
        parse_csv_line("a,b"),
        Some(("a".to_string(), "b".to_string()))
    );
}

#[test]
fn quoted_comma_is_literal() {
    assert_eq!(
        parse_csv_line("\"a,b\",c"),
        Some(("a,b".to_string(), "c".to_string()))
    );
}

#[test]
fn doubled_quote_is_literal_quote() {
    assert_eq!(
        parse_csv_line("\"say \"\"hi\"\"\",ok"),
        Some(("say \"hi\"".to_string(), "ok".to_string()))
    );
}

#[test]
fn fields_are_trimmed() {
    assert_eq!(
        parse_csv_line(" a , b "),
        Some(("a".to_string(), "b".to_string()))
    );
}

#[test]
fn single_field_gives_no_record() {
    assert_eq!(parse_csv_line("onlyonefield"), None);
}

#[test]
fn extra_fields_are_ignored() {
    assert_eq!(
        parse_csv_line("q,a,extra,more"),
        Some(("q".to_string(), "a".to_string()))
    );
}

#[test]
fn unterminated_quote_is_accepted() {
    // the quote never closes, so the comma stays literal and only one
    // field is closed: no record, but no error either
    assert_eq!(parse_csv_line("\"open,quote"), None);
}

#[test]
fn empty_second_field_still_parses() {
    assert_eq!(
        parse_csv_line("q,"),
        Some(("q".to_string(), "".to_string()))
    );
}

#[test]
fn internal_whitespace_is_kept() {
    assert_eq!(
        parse_csv_line("what is  it , an answer"),
        Some(("what is  it".to_string(), "an answer".to_string()))
    );
}
