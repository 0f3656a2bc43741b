use fraction::expression::{process_input, word_spans, Operator};
use fraction::fraction::{Fraction, FractionError};
use fraction::numeral::{parse_i32, push_decimal};
use fraction::scan::find_char;
use std::str::FromStr;

fn frac(numerator: i32, denominator: i32) -> Fraction {
    Fraction { numerator, denominator }
}

fn ok(s: &str) -> Result<String, String> {
    Ok(s.to_string())
}

fn err(s: &str) -> Result<String, String> {
    Err(s.to_string())
}

#[test]
fn parse_plain_integer() {
    assert_eq!(Fraction::parse("7"), Ok(frac(7, 1)));
    assert_eq!(Fraction::parse("-3"), Ok(frac(-3, 1)));
    assert_eq!(Fraction::parse("+12"), Ok(frac(12, 1)));
}

#[test]
fn parse_mixed_numbers() {
    assert_eq!(Fraction::parse("2_3/8"), Ok(frac(19, 8)));
    assert_eq!(Fraction::parse("-2_3/8"), Ok(frac(-19, 8)));
    assert_eq!(Fraction::parse("1_-1/4"), Ok(frac(3, 4)));
}

#[test]
fn parse_keeps_negative_denominator() {
    assert_eq!(Fraction::parse("1/-4"), Ok(frac(1, -4)));
}

#[test]
fn parse_rejects_malformed_text() {
    assert_eq!(Fraction::parse(""), Err(FractionError::InvalidNumber));
    assert_eq!(Fraction::parse("-"), Err(FractionError::InvalidNumber));
    assert_eq!(Fraction::parse("abc"), Err(FractionError::InvalidNumber));
    assert_eq!(Fraction::parse("1/"), Err(FractionError::InvalidNumber));
    assert_eq!(Fraction::parse("/4"), Err(FractionError::InvalidNumber));
    assert_eq!(Fraction::parse("1_2"), Err(FractionError::InvalidNumber));
    assert_eq!(Fraction::parse("1/2_3"), Err(FractionError::InvalidNumber));
    assert_eq!(Fraction::parse("1_2/3/4"), Err(FractionError::InvalidNumber));
    assert_eq!(Fraction::parse("2147483648"), Err(FractionError::InvalidNumber));
}

#[test]
fn parse_rejects_zero_denominator() {
    assert_eq!(Fraction::parse("1/0"), Err(FractionError::DivideByZero));
    assert_eq!(Fraction::parse("1_1/0"), Err(FractionError::DivideByZero));
}

#[test]
fn parse_rejects_values_out_of_range() {
    assert_eq!(Fraction::parse("2147483647_1/2"), Err(FractionError::Overflow));
    assert_eq!(Fraction::parse("-2147483648"), Ok(frac(i32::MIN, 1)));
}

#[test]
fn integers_at_the_edges_of_the_range() {
    assert_eq!(parse_i32("2147483647"), Some(i32::MAX));
    assert_eq!(parse_i32("-2147483648"), Some(i32::MIN));
    assert_eq!(parse_i32("-2147483649"), None);
    assert_eq!(parse_i32("99999999999999999999"), None);
    assert_eq!(parse_i32("007"), Some(7));
    assert_eq!(parse_i32("+"), None);
    assert_eq!(parse_i32("1 "), None);
}

#[test]
fn decimal_digits_are_appended() {
    let mut out = String::from("x=");
    push_decimal(&mut out, 0);
    push_decimal(&mut out, 4096);
    assert_eq!(out, "x=04096");
    let mut big = String::new();
    push_decimal(&mut big, u64::MAX);
    assert_eq!(big, "18446744073709551615");
}

#[test]
fn format_examples() {
    assert_eq!(frac(0, -5).to_string(), "0/5");
    assert_eq!(frac(-5, -4).to_string(), "1_1/4");
    assert_eq!(frac(3, 3).to_string(), "3/3");
    assert_eq!(frac(8, 4).to_string(), "2_0/4");
    assert_eq!(frac(i32::MIN, 1).to_string(), "-2147483648");
    assert_eq!(frac(1, i32::MIN).to_string(), "-1/2147483648");
}

#[test]
fn arithmetic_is_unreduced() {
    assert_eq!(frac(1, 2).add(frac(1, 4)), Ok(frac(6, 8)));
    assert_eq!(frac(1, 2).sub(frac(1, 6)), Ok(frac(4, 12)));
    assert_eq!(frac(1, 4).mul(frac(1, 2)), Ok(frac(1, 8)));
    assert_eq!(frac(2, 1).div(frac(5, 1)), Ok(frac(2, 5)));
    assert_eq!(frac(1, 2).div(frac(-1, 3)), Ok(frac(3, -2)));
}

#[test]
fn division_by_zero_numerator_is_refused() {
    assert_eq!(frac(1, 2).div(frac(0, 7)), Err(FractionError::DivideByZero));
}

#[test]
fn arithmetic_out_of_range_is_refused() {
    assert_eq!(frac(i32::MAX, 1).add(frac(1, 1)), Err(FractionError::Overflow));
    assert_eq!(frac(1, 65536).mul(frac(1, 65536)), Err(FractionError::Overflow));
    assert_eq!(frac(i32::MIN, i32::MIN).add(frac(i32::MIN, i32::MIN)), Err(FractionError::Overflow));
}

#[test]
fn gcd_of_magnitudes() {
    assert_eq!(Fraction::gcd(12, 18), 6);
    assert_eq!(Fraction::gcd(0, 7), 7);
    assert_eq!(Fraction::gcd(7, 0), 7);
    assert_eq!(Fraction::gcd(17, 5), 1);
    assert_eq!(Fraction::gcd(2147483648, 1024), 1024);
}

#[test]
fn reduce_to_lowest_terms() {
    assert_eq!(Fraction::reduce(frac(6, 8)), Ok(frac(3, 4)));
    assert_eq!(Fraction::reduce(frac(3, -6)), Ok(frac(-1, 2)));
    assert_eq!(Fraction::reduce(frac(-3, -6)), Ok(frac(1, 2)));
    assert_eq!(Fraction::reduce(frac(0, -9)), Ok(frac(0, 1)));
    assert_eq!(Fraction::reduce(frac(i32::MIN, 2)), Ok(frac(-1073741824, 1)));
}

#[test]
fn reduce_out_of_range_is_refused() {
    assert!(Fraction::reduce(frac(i32::MIN, -1)).is_err());
    assert!(Fraction::reduce(frac(1, i32::MIN)).is_err());
}

#[test]
fn reducing_twice_changes_nothing() {
    for x in [frac(6, 8), frac(3, -6), frac(0, -9), frac(-50, 15), frac(7, 1)] {
        let once = Fraction::reduce(x).unwrap();
        assert_eq!(Fraction::reduce(once), Ok(once));
    }
}

#[test]
fn text_reads_back_to_the_same_fraction() {
    for x in [frac(5, 4), frac(-5, 4), frac(1, 3), frac(-1, 3), frac(0, 1), frac(-7, 1),
              frac(i32::MIN, 1), frac(i32::MAX, 2), frac(i32::MIN, 3)] {
        let text = x.to_string();
        let back = Fraction::parse(&text).unwrap();
        assert_eq!(Fraction::reduce(back), Ok(x));
    }
}

#[test]
fn operators_by_symbol() {
    assert_eq!(Operator::from_symbol("+"), Some(Operator::Add));
    assert_eq!(Operator::from_symbol("-"), Some(Operator::Subtract));
    assert_eq!(Operator::from_symbol("*"), Some(Operator::Multiply));
    assert_eq!(Operator::from_symbol("/"), Some(Operator::Divide));
    assert_eq!(Operator::from_symbol("%"), None);
    assert_eq!(Operator::from_symbol("++"), None);
    assert_eq!(Operator::Multiply.apply(frac(1, 2), frac(15, 4)), Ok(frac(15, 8)));
}

#[test]
fn words_of_a_line() {
    assert_eq!(word_spans("  1/2   *  3 "), vec![(2, 5), (8, 9), (11, 12)]);
    assert_eq!(word_spans(""), vec![]);
    assert_eq!(word_spans("a\tb"), vec![(0, 1), (2, 3)]);
}

#[test]
fn markers_are_found_first() {
    assert_eq!(find_char("1_2_3", '_'), Some(1));
    assert_eq!(find_char("123", '/'), None);
}

#[test]
fn evaluate_examples() {
    assert_eq!(process_input("2 * 5"), ok("10"));
    assert_eq!(process_input("1/4 * 1/2"), ok("1/8"));
    assert_eq!(process_input("2 / 5"), ok("2/5"));
    assert_eq!(process_input("1/2 + 1/4"), ok("3/4"));
    assert_eq!(process_input("1/2 - 1/6"), ok("1/3"));
    assert_eq!(process_input("1/2 * 3_3/4"), ok("1_7/8"));
    assert_eq!(process_input("2_3/8 + 9/8"), ok("3_1/2"));
}

#[test]
fn evaluate_accepts_runs_of_spaces() {
    assert_eq!(process_input("1/2      *    3_3/4"), ok("1_7/8"));
    assert_eq!(process_input("  1/2 + 1/2  "), ok("1"));
}

#[test]
fn evaluate_negative_and_zero_results() {
    assert_eq!(process_input("1/4 - 1/2"), ok("-1/4"));
    assert_eq!(process_input("1/2 / -1/3"), ok("-1_1/2"));
    assert_eq!(process_input("1/2 - 1/2"), ok("0"));
    assert_eq!(process_input("-1_1/4 * 2"), ok("-2_1/2"));
}

#[test]
fn evaluate_unknown_operator() {
    assert_eq!(process_input("1/2 % 1/4"), err("unknown operator: %"));
}

#[test]
fn evaluate_divide_by_zero() {
    assert_eq!(process_input("1/2 / 0"), err("divide by zero"));
    assert_eq!(process_input("1/2 / 0/5"), err("divide by zero"));
    assert_eq!(process_input("1/0 + 1"), err("divide by zero"));
}

#[test]
fn evaluate_malformed_operands() {
    assert_eq!(process_input("x + 1"), err("invalid number: x"));
    assert_eq!(process_input("1 + 1/y"), err("invalid number: 1/y"));
    assert_eq!(process_input("99999999999 + 1"), err("invalid number: 99999999999"));
    assert_eq!(process_input("2147483647_1/2 + 1"), err("number out of range: 2147483647_1/2"));
}

#[test]
fn evaluate_wrong_number_of_tokens() {
    assert_eq!(process_input(""), err("expected: operand operator operand"));
    assert_eq!(process_input("1 +"), err("expected: operand operator operand"));
    assert_eq!(process_input("1 + 2 + 3"), err("expected: operand operator operand"));
}

#[test]
fn evaluate_result_out_of_range() {
    assert_eq!(process_input("2147483647 + 1"), err("result out of range"));
    assert_eq!(process_input("-2147483648 / -1"), err("result out of range"));
}

#[test]
fn repeated_words_keep_their_own_positions() {
    assert_eq!(word_spans("1 + 1"), vec![(0, 1), (2, 3), (4, 5)]);
}

#[test]
fn every_ascii_blank_separates() {
    assert_eq!(process_input("1\x0B+\x0C1"), ok("2"));
    assert_eq!(process_input("1/2\r\n*\t3"), ok("1_1/2"));
}

#[test]
fn from_str_reports_errors() {
    assert_eq!(Fraction::from_str("1/0"), Err(FractionError::DivideByZero));
    assert_eq!(Fraction::from_str("1.5"), Err(FractionError::InvalidNumber));
    assert_eq!(Fraction::from_str("a_1/2"), Err(FractionError::InvalidNumber));
}
