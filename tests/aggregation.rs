use token_mint::amount::{chars_of, chars_without_commas, parse_amount, raw_amount, AmountError, RawAmount};
use token_mint::documents::{aggregate_documents, document_amounts, LedgerError};
use token_mint::ledger::aggregate;

fn texts(docs: &[&str]) -> Vec<String> {
    docs.iter().map(|d| d.to_string()).collect()
}

fn parse(s: &str) -> Result<i128, AmountError> {
    parse_amount(&chars_of(s))
}

#[test]
fn parses_plain_decimals() {
    assert_eq!(parse("50"), Ok(50_000_000_000));
    assert_eq!(parse("30.5"), Ok(30_500_000_000));
    assert_eq!(parse("-80.5"), Ok(-80_500_000_000));
    assert_eq!(parse("+1"), Ok(1_000_000_000));
    assert_eq!(parse(".5"), Ok(500_000_000));
    assert_eq!(parse("5."), Ok(5_000_000_000));
    assert_eq!(parse("0.000000001"), Ok(1));
}

#[test]
fn truncates_beyond_nine_places() {
    assert_eq!(parse("0.0000000019"), Ok(1));
    assert_eq!(parse("-0.0000000019"), Ok(-1));
    assert_eq!(parse("1.1234567899"), Ok(1_123_456_789));
}

#[test]
fn refuses_what_is_not_a_decimal() {
    for bad in ["", "-", ".", "abc", "1.2.3", "1e5", "1 0", "not-a-number", "--1", "1,0"] {
        assert_eq!(parse(bad), Err(AmountError::NotANumber), "{bad}");
    }
}

#[test]
fn refuses_amounts_above_the_limit() {
    assert_eq!(parse("1000000000"), Ok(1_000_000_000_000_000_000));
    assert_eq!(parse("1000000000.000000001"), Err(AmountError::AboveLimit));
    assert_eq!(parse("1000000000.0000000001"), Err(AmountError::AboveLimit));
    assert_eq!(parse("1000000000.0000000000"), Ok(1_000_000_000_000_000_000));
    assert_eq!(parse("999999999.9999999999"), Ok(999_999_999_999_999_999));
    assert_eq!(parse("-1000000000.0000000001"), Ok(-1_000_000_000_000_000_000));
    assert_eq!(parse("1000000001"), Err(AmountError::AboveLimit));
    assert_eq!(parse("99999999999999999999999"), Err(AmountError::AboveLimit));
}

#[test]
fn refuses_negative_amounts_out_of_range() {
    assert_eq!(parse("-9223372036.854775808"), Ok(i64::MIN as i128));
    assert_eq!(parse("-18446744073.709551615"), Ok(-(u64::MAX as i128)));
    assert_eq!(parse("-1000000000000000000000000000"), Ok(-1_000_000_000_000_000_000_000_000_000_000_000_000));
    assert_eq!(parse("-1000000000000000000000000000.000000001"), Err(AmountError::OutOfRange));
    assert_eq!(parse("-9223372036.854775809"), Ok(-9_223_372_036_854_775_809));
    assert_eq!(parse("-5000000000"), Ok(-5_000_000_000_000_000_000));
}

#[test]
fn comma_grouped_string_equals_number() {
    let text = raw_amount(&RawAmount::Text("1,234.5".to_string()));
    let number = raw_amount(&RawAmount::Number("1234.5".to_string()));
    assert_eq!(text, Ok(1_234_500_000_000));
    assert_eq!(text, number);
    assert_eq!(chars_without_commas("1,234.5"), vec!['1', '2', '3', '4', '.', '5']);
}

#[test]
fn numbers_with_an_exponent_are_scaled_exactly() {
    let num = |t: &str| raw_amount(&RawAmount::Number(t.to_string()));
    assert_eq!(num("1e-6"), Ok(1_000));
    assert_eq!(num("1.5E3"), Ok(1_500_000_000_000));
    assert_eq!(num("12e-1"), Ok(1_200_000_000));
    assert_eq!(num("-1.5e-9"), Ok(-1));
    assert_eq!(num("2.5e-10"), Ok(0));
    assert_eq!(num("1e+2"), Ok(100_000_000_000));
    assert_eq!(num("1e9"), Ok(1_000_000_000_000_000_000));
    assert_eq!(num("1.1e9"), Err(AmountError::AboveLimit));
    assert_eq!(num("1e1001"), Err(AmountError::OutOfRange));
    assert_eq!(num("1e-1001"), Ok(0));
    assert_eq!(num("-7.5e-99999999999999999999999"), Ok(0));
    assert_eq!(num("123e-1000"), Ok(0));
    assert_eq!(num("1e"), Err(AmountError::NotANumber));
    assert_eq!(num("e5"), Err(AmountError::NotANumber));
    assert_eq!(num("1e5.0"), Err(AmountError::NotANumber));
}

#[test]
fn small_json_numbers_are_accepted() {
    let r = aggregate_documents(&texts(&[r#"{"x": 0.000001, "y": 1e-7}"#]));
    assert_eq!(r, Ok(vec![("x".to_string(), 1_000), ("y".to_string(), 100)]));
}

#[test]
fn json_numbers_keep_every_written_digit() {
    let r = aggregate_documents(&texts(&[r#"{"x": 0.1234567891234567891, "y": 123456789.123456789}"#]));
    assert_eq!(r, Ok(vec![("x".to_string(), 123_456_789), ("y".to_string(), 123_456_789_123_456_789)]));
}

#[test]
fn other_json_values_are_refused() {
    assert_eq!(raw_amount(&RawAmount::Other("true".to_string())), Err(AmountError::WrongType));
    assert_eq!(raw_amount(&RawAmount::Number("1,0".to_string())), Err(AmountError::NotANumber));
}

#[test]
fn document_amounts_reports_the_first_bad_identifier() {
    let doc = vec![
        ("a".to_string(), RawAmount::Number("1".to_string())),
        ("b".to_string(), RawAmount::Text("x".to_string())),
        ("c".to_string(), RawAmount::Other("null".to_string())),
    ];
    assert_eq!(document_amounts(&doc), Err(("b".to_string(), AmountError::NotANumber)));
}

#[test]
fn aggregate_sums_and_drops_non_positive() {
    let entries = vec![
        ("a".to_string(), 5),
        ("b".to_string(), 3),
        ("a".to_string(), -2),
        ("b".to_string(), -3),
        ("c".to_string(), -1),
    ];
    assert_eq!(aggregate(&entries), Ok(vec![("a".to_string(), 3)]));
}

#[test]
fn aggregate_orders_by_identifier() {
    let entries = vec![
        ("zeta".to_string(), 1),
        ("b".to_string(), 2),
        ("alpha".to_string(), 3),
        ("B".to_string(), 4),
        ("ab".to_string(), 5),
        ("a".to_string(), 6),
    ];
    let got: Vec<String> = aggregate(&entries).unwrap().into_iter().map(|p| p.0).collect();
    assert_eq!(got, vec!["B", "a", "ab", "alpha", "b", "zeta"]);
}

#[test]
fn aggregate_refuses_a_total_too_large() {
    let entries = vec![
        ("a".to_string(), i64::MAX as i128),
        ("a".to_string(), i64::MAX as i128),
        ("a".to_string(), 1),
    ];
    assert_eq!(aggregate(&entries), Err("a".to_string()));
    let below = vec![("a".to_string(), i64::MAX as i128), ("a".to_string(), i64::MAX as i128)];
    assert_eq!(aggregate(&below), Ok(vec![("a".to_string(), u64::MAX - 1)]));
}

#[test]
fn aggregate_refuses_a_running_total_out_of_range() {
    let entries = vec![("a".to_string(), i128::MAX), ("a".to_string(), 1), ("a".to_string(), -10)];
    assert_eq!(aggregate(&entries), Err("a".to_string()));
    let fine = vec![("a".to_string(), i128::MIN), ("b".to_string(), 1), ("a".to_string(), i128::MAX)];
    assert_eq!(aggregate(&fine), Ok(vec![("b".to_string(), 1)]));
}

#[test]
fn documents_example_aggregates_to_eighty_and_a_half() {
    let r = aggregate_documents(&texts(&[r#"{"id1": 50}"#, r#"{"id1": "30.5"}"#]));
    assert_eq!(r, Ok(vec![("id1".to_string(), 80_500_000_000)]));
}

#[test]
fn empty_directory_gives_empty_ledger() {
    assert_eq!(aggregate_documents(&Vec::new()), Ok(Vec::new()));
    assert_eq!(aggregate_documents(&texts(&["{}"])), Ok(Vec::new()));
}

#[test]
fn order_of_documents_does_not_matter() {
    let a = r#"{"x": "1,000.25", "y": 2}"#;
    let b = r#"{"y": -1.5, "x": 0.75}"#;
    let first = aggregate_documents(&texts(&[a, b])).unwrap();
    let second = aggregate_documents(&texts(&[b, a])).unwrap();
    assert_eq!(first, second);
    assert_eq!(first, vec![("x".to_string(), 1_001_000_000_000), ("y".to_string(), 500_000_000)]);
}

#[test]
fn every_order_of_three_documents_agrees() {
    let a = r#"{"x": 1, "y": "2.5"}"#;
    let b = r#"{"y": -1, "z": 0.000001}"#;
    let c = r#"{"x": "-0.5", "z": 3}"#;
    let expected = aggregate_documents(&texts(&[a, b, c])).unwrap();
    for order in [[a, c, b], [b, a, c], [b, c, a], [c, a, b], [c, b, a]] {
        assert_eq!(aggregate_documents(&texts(&order)).unwrap(), expected);
    }
    assert_eq!(
        expected,
        vec![
            ("x".to_string(), 500_000_000),
            ("y".to_string(), 1_500_000_000),
            ("z".to_string(), 3_000_001_000),
        ]
    );
}

#[test]
fn non_positive_balances_never_appear() {
    let r = aggregate_documents(&texts(&[r#"{"a": 1, "b": 2}"#, r#"{"a": "-1", "b": "-3"}"#]));
    assert_eq!(r, Ok(Vec::new()));
}

#[test]
fn not_a_number_is_fatal() {
    let r = aggregate_documents(&texts(&[r#"{"id1": 5}"#, r#"{"id2": "not-a-number"}"#]));
    assert_eq!(
        r,
        Err(LedgerError::BadAmount { document: 1, id: "id2".to_string(), error: AmountError::NotANumber })
    );
}

#[test]
fn malformed_document_is_fatal() {
    assert_eq!(aggregate_documents(&texts(&["[1, 2]"])), Err(LedgerError::Malformed { document: 0 }));
    assert_eq!(aggregate_documents(&texts(&["{}", "{"])), Err(LedgerError::Malformed { document: 1 }));
}

#[test]
fn wrong_value_type_is_fatal() {
    let r = aggregate_documents(&texts(&[r#"{"id": [1]}"#]));
    assert_eq!(
        r,
        Err(LedgerError::BadAmount { document: 0, id: "id".to_string(), error: AmountError::WrongType })
    );
}

#[test]
fn amount_above_limit_is_fatal() {
    let r = aggregate_documents(&texts(&[r#"{"id": 2000000000}"#]));
    assert_eq!(
        r,
        Err(LedgerError::BadAmount { document: 0, id: "id".to_string(), error: AmountError::AboveLimit })
    );
}

#[test]
fn total_too_large_is_fatal() {
    let docs: Vec<String> = (0..19).map(|_| r#"{"big": 1000000000}"#.to_string()).collect();
    assert_eq!(aggregate_documents(&docs), Err(LedgerError::TooLarge { id: "big".to_string() }));
}
