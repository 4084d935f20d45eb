use excel2csv::error::FormatError;
use excel2csv::number::format_int_with_thousands;
use excel2csv::parser::{parse, split_format_sections};
use excel2csv::value::Value;

fn num(s: &str) -> Value {
    let v = Value::from_raw(s);
    assert!(matches!(v, Value::Number(_)), "expected {} to read as a number", s);
    v
}

#[test]
fn rounds_to_decimal_places() {
    assert_eq!(excel2csv::engine::format("0.00", &num("3.14159")).unwrap(), "3.14");
    assert_eq!(excel2csv::engine::format("0.000", &num("3.14159")).unwrap(), "3.142");
    assert_eq!(excel2csv::engine::format("0.00", &num("3")).unwrap(), "3.00");
}

#[test]
fn rounds_half_away_from_zero() {
    assert_eq!(excel2csv::engine::format("0", &num("2.5")).unwrap(), "3");
    assert_eq!(excel2csv::engine::format("0", &num("3.5")).unwrap(), "4");
    assert_eq!(excel2csv::engine::format("0.0", &num("0.25")).unwrap(), "0.3");
    assert_eq!(excel2csv::engine::format("0", &num("-2.5")).unwrap(), "3");
    assert_eq!(excel2csv::engine::format("0.00", &num("9.999")).unwrap(), "10.00");
}

#[test]
fn groups_thousands_iff_marker_present() {
    assert_eq!(excel2csv::engine::format("#,##0", &num("1234567")).unwrap(), "1,234,567");
    assert_eq!(excel2csv::engine::format("##0", &num("1234567")).unwrap(), "1234567");
    assert_eq!(excel2csv::engine::format("#,##0", &num("1000")).unwrap(), "1,000");
    assert_eq!(excel2csv::engine::format("#,##0", &num("100")).unwrap(), "100");
}

#[test]
fn grouping_never_touches_the_fraction() {
    assert_eq!(excel2csv::engine::format("#,##0.00", &num("1234.5")).unwrap(), "1,234.50");
    assert_eq!(excel2csv::engine::format("#,##0.0000", &num("1234567.25")).unwrap(), "1,234,567.2500");
}

#[test]
fn dispatches_sections_by_sign() {
    let code = "0.00;(0.00);\"-\"";
    assert_eq!(excel2csv::engine::format(code, &num("5")).unwrap(), "5.00");
    assert_eq!(excel2csv::engine::format(code, &num("-5")).unwrap(), "(5.00)");
    assert_eq!(excel2csv::engine::format(code, &num("0")).unwrap(), "-");
}

#[test]
fn two_sections_split_negative_from_the_rest() {
    let code = "0.0;(0.0)";
    assert_eq!(excel2csv::engine::format(code, &num("1.5")).unwrap(), "1.5");
    assert_eq!(excel2csv::engine::format(code, &num("0")).unwrap(), "0.0");
    assert_eq!(excel2csv::engine::format(code, &num("-1.5")).unwrap(), "(1.5)");
}

#[test]
fn escaped_braces_survive() {
    assert_eq!(excel2csv::engine::format("\\{###\\}", &num("123")).unwrap(), "{123}");
}

#[test]
fn text_uses_the_fourth_section_only() {
    let code = "0;0;0;\"N/A\"";
    assert_eq!(excel2csv::engine::format(code, &Value::Text(String::from("anything"))).unwrap(), "N/A");
    assert_eq!(excel2csv::engine::format(code, &Value::Text(String::from("other text"))).unwrap(), "N/A");
}

#[test]
fn reparsing_gives_identical_sections() {
    let code = "#,##0.00_);(#,##0.00);\"-\";@ \"txt\"";
    let first = parse(code).unwrap();
    let second = parse(code).unwrap();
    assert_eq!(first, second);
}

#[test]
fn unterminated_quote_is_an_error() {
    assert_eq!(excel2csv::engine::format("\"unterminated", &num("1")), Err(FormatError::UnbalancedQuote));
}

#[test]
fn unterminated_bracket_is_an_error() {
    assert_eq!(excel2csv::engine::format("[red", &num("1")), Err(FormatError::UnbalancedBracket));
}

#[test]
fn trailing_escape_is_an_error() {
    assert_eq!(excel2csv::engine::format("0.00\\", &num("1")), Err(FormatError::DanglingEscape));
}

#[test]
fn text_against_digit_section_is_unformattable() {
    let v = Value::Text(String::from("hello"));
    assert_eq!(excel2csv::engine::format("0.00", &v), Err(FormatError::Unformattable));
}

#[test]
fn error_descriptions_name_the_failure() {
    assert_eq!(FormatError::UnbalancedQuote.describe(), "unbalanced quote in format code");
    assert_eq!(FormatError::Unformattable.describe(), "value cannot be formatted by this section");
}

#[test]
fn directives_and_fills_emit_nothing() {
    assert_eq!(excel2csv::engine::format("[Red]0.00", &num("1.5")).unwrap(), "1.50");
    assert_eq!(excel2csv::engine::format("#,##0.00_);(#,##0.00)", &num("-1234.5")).unwrap(), "(1,234.50)");
    assert_eq!(excel2csv::engine::format("#,##0.00_);(#,##0.00)", &num("1234.5")).unwrap(), "1,234.50");
}

#[test]
fn literals_and_whitespace_round_trip() {
    assert_eq!(excel2csv::engine::format("0.0 \"kg\"", &num("2.25")).unwrap(), "2.3 kg");
    assert_eq!(excel2csv::engine::format("$0.00", &num("7")).unwrap(), "$7.00");
}

#[test]
fn one_section_serves_every_sign() {
    assert_eq!(excel2csv::engine::format("0.00", &num("-5")).unwrap(), "5.00");
    assert_eq!(excel2csv::engine::format("0.00", &num("0")).unwrap(), "0.00");
}

#[test]
fn second_decimal_point_is_literal() {
    // the run covers `0.0`; the second point is a literal in the suffix,
    // and a placeholder in the suffix emits nothing
    assert_eq!(excel2csv::engine::format("0.0.0", &num("1.25")).unwrap(), "1.3.");
}

#[test]
fn question_placeholders_count_as_digits() {
    assert_eq!(excel2csv::engine::format("0.0?", &num("3.14159")).unwrap(), "3.14");
}

#[test]
fn comma_away_from_digits_is_literal() {
    assert_eq!(excel2csv::engine::format("0\", and\"", &num("5")).unwrap(), "5, and");
}

#[test]
fn semicolon_inside_quotes_does_not_split() {
    let sections = split_format_sections("0\";\"0;0");
    assert_eq!(sections, vec![String::from("0\";\"0"), String::from("0")]);
}

#[test]
fn splitting_keeps_every_section() {
    let sections = split_format_sections("a;b;c;d");
    assert_eq!(sections, vec![
        String::from("a"),
        String::from("b"),
        String::from("c"),
        String::from("d"),
    ]);
}

#[test]
fn integer_grouping_formats_exactly() {
    assert_eq!(format_int_with_thousands(1234567), "1,234,567");
    assert_eq!(format_int_with_thousands(0), "0");
    assert_eq!(format_int_with_thousands(999), "999");
    assert_eq!(format_int_with_thousands(1000), "1,000");
    assert_eq!(format_int_with_thousands(-9876543), "-9,876,543");
}

#[test]
fn raw_values_classify_as_number_or_text() {
    assert!(matches!(Value::from_raw("42"), Value::Number(_)));
    assert!(matches!(Value::from_raw("-12.5"), Value::Number(d) if d.negative));
    assert!(matches!(Value::from_raw("+4"), Value::Number(d) if !d.negative));
    assert!(matches!(Value::from_raw(".5"), Value::Number(_)));
    assert!(matches!(Value::from_raw("abc"), Value::Text(_)));
    assert!(matches!(Value::from_raw("1.2.3"), Value::Text(_)));
    assert!(matches!(Value::from_raw(""), Value::Text(_)));
    assert!(matches!(Value::from_raw("-"), Value::Text(_)));
}

#[test]
fn negative_zero_is_the_zero_class() {
    let code = "0.00;(0.00);\"-\"";
    assert_eq!(excel2csv::engine::format(code, &num("-0.0")).unwrap(), "-");
}

#[test]
fn empty_section_renders_empty() {
    assert_eq!(excel2csv::engine::format("", &num("5")).unwrap(), "");
}
