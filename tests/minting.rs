use token_mint::documents::aggregate_documents;
use token_mint::plan::{cap, mint_amounts, parse_max, plan_with_draws, MintOpt, JITTER_HIGH, JITTER_LOW};
use token_mint::render::{
    audit_record, balance_lines, decimal_text, format_command, format_mint_object, format_negated,
    format_scaled, render_output, summary_lines,
};

fn opts(max: u64, randomize: bool, json: bool, dry_run: bool, memo: Option<&str>) -> MintOpt {
    MintOpt {
        max,
        dry_run,
        randomize,
        memo: memo.map(|m| m.to_string()),
        json,
        pem: "key.pem".to_string(),
    }
}

fn example_ledger() -> Vec<(String, u64)> {
    aggregate_documents(&vec![r#"{"id1": 50}"#.to_string(), r#"{"id1": "30.5"}"#.to_string()]).unwrap()
}

#[test]
fn parse_max_scales_and_clamps() {
    assert_eq!(parse_max("100"), Ok(100_000_000_000));
    assert_eq!(parse_max("-3"), Ok(0));
    assert!(parse_max("x").is_err());
    assert_eq!(parse_max("1000000000"), Ok(1_000_000_000_000_000_000));
    assert!(parse_max("1000000000.0000000001").is_err());
}

#[test]
fn cap_is_fixed_or_jittered() {
    assert_eq!(cap(100, false, 0), 100);
    assert_eq!(cap(100_000_000_000, true, 800_000_000), 80_000_000_000);
    assert_eq!(cap(100_000_000_000, true, 1_199_999_999), 119_999_999_900);
    assert_eq!(cap(u64::MAX, true, 1_100_000_000), u64::MAX);
}

#[test]
fn plan_clamps_to_the_maximum() {
    let ledger = vec![("a".to_string(), 5), ("b".to_string(), 20)];
    let plan = plan_with_draws(&ledger, &opts(10, false, false, true, None), &Vec::new());
    assert_eq!(plan, vec![("a".to_string(), 5), ("b".to_string(), 10)]);
    let zero = plan_with_draws(&ledger, &opts(0, false, false, true, None), &Vec::new());
    assert_eq!(zero, vec![("a".to_string(), 0), ("b".to_string(), 0)]);
}

#[test]
fn plan_uses_each_draw() {
    let ledger = vec![("a".to_string(), 1_000), ("b".to_string(), 1_000)];
    let plan = plan_with_draws(&ledger, &opts(100, true, false, true, None), &vec![800_000_000, 1_100_000_000]);
    assert_eq!(plan, vec![("a".to_string(), 80), ("b".to_string(), 110)]);
}

#[test]
fn fixed_plans_repeat() {
    let ledger = vec![("a".to_string(), 7_000), ("b".to_string(), 3)];
    let o = opts(1_000, false, false, true, None);
    assert_eq!(mint_amounts(&ledger, &o), mint_amounts(&ledger, &o));
    assert_eq!(mint_amounts(&ledger, &o), vec![("a".to_string(), 1_000), ("b".to_string(), 3)]);
}

#[test]
fn randomized_amounts_stay_in_band() {
    let ledger: Vec<(String, u64)> = (0..50).map(|i| (format!("id{i}"), 1_000_000_000_000)).collect();
    let max = 100_000_000_000u64;
    let plan = mint_amounts(&ledger, &opts(max, true, false, true, None));
    assert_eq!(plan.len(), ledger.len());
    for ((id, amount), (lid, balance)) in plan.iter().zip(ledger.iter()) {
        assert_eq!(id, lid);
        assert!(*amount <= *balance);
        assert!((*amount as u128) * 1_000_000_000 <= (max as u128) * (JITTER_HIGH as u128));
        assert!((*amount as u128) >= (max as u128) * (JITTER_LOW as u128) / 1_000_000_000);
    }
    let small = vec![("s".to_string(), 5u64)];
    assert_eq!(mint_amounts(&small, &opts(max, true, false, true, None)), small);
}

#[test]
fn formats_amounts() {
    assert_eq!(decimal_text(0), "0");
    assert_eq!(decimal_text(80_500_000_000), "80500000000");
    assert_eq!(format_scaled(80_500_000_000), "80.500000000");
    assert_eq!(format_scaled(1), "0.000000001");
    assert_eq!(format_negated(80_500_000_000), "-80.5");
    assert_eq!(format_negated(100_000_000_000), "-100");
    assert_eq!(format_negated(0), "-0");
    assert_eq!(format_negated(1), "-0.000000001");
}

#[test]
fn example_plan_and_command() {
    let ledger = example_ledger();
    let o = opts(parse_max("100").unwrap(), false, false, true, None);
    let plan = mint_amounts(&ledger, &o);
    assert_eq!(plan, vec![("id1".to_string(), 80_500_000_000)]);
    let expected = "ledger --pem key.pem https://alberto.app/api token mint \
        mqbh742x4s356ddaryrxaowt4wxtlocekzpufodvowrirfrqaaaaa3l '{\n    \"id1\": 80500000000\n}' ";
    assert_eq!(render_output(&plan, &o), Some(expected.to_string()));
    let committed = opts(o.max, false, false, false, None);
    assert_eq!(render_output(&plan, &committed), render_output(&plan, &o));
}

#[test]
fn example_plan_as_json() {
    let ledger = example_ledger();
    let o = opts(parse_max("100").unwrap(), false, true, true, None);
    let plan = mint_amounts(&ledger, &o);
    assert_eq!(render_output(&plan, &o), Some("{\n  \"id1\": 80500000000\n}".to_string()));
}

#[test]
fn command_with_memo_and_several_entries() {
    let plan = vec![("a".to_string(), 1), ("b".to_string(), 22)];
    assert_eq!(format_mint_object(&plan), "{\n    \"a\": 1,\n    \"b\": 22\n}");
    let cmd = format_command(&plan, &"p.pem".to_string(), &Some("hi".to_string()));
    assert!(cmd.starts_with("ledger --pem p.pem https://alberto.app/api token mint "));
    assert!(cmd.ends_with("'{\n    \"a\": 1,\n    \"b\": 22\n}' --memo 'hi'"));
}

#[test]
fn empty_plan_prints_no_command() {
    let o = opts(10, false, false, true, None);
    assert_eq!(render_output(&Vec::new(), &o), None);
    let j = opts(10, false, true, true, None);
    assert_eq!(render_output(&Vec::new(), &j), Some("{}".to_string()));
}

#[test]
fn audit_record_holds_negated_amounts() {
    let plan = vec![("id1".to_string(), 80_500_000_000)];
    assert_eq!(audit_record(&plan), "{\n  \"id1\": \"-80.5\"\n}");
}

#[test]
fn largest_audit_value_reads_back() {
    let text = format_negated(u64::MAX);
    assert_eq!(text, "-18446744073.709551615");
    assert_eq!(
        token_mint::amount::raw_amount(&token_mint::amount::RawAmount::Text(text)),
        Ok(-(u64::MAX as i128))
    );
}

#[test]
fn audit_record_round_trip_debits_the_minted_amount() {
    let docs = vec![r#"{"id1": 50}"#.to_string(), r#"{"id1": "30.5", "id2": 7}"#.to_string()];
    let ledger = aggregate_documents(&docs).unwrap();
    let o = opts(parse_max("50").unwrap(), false, false, false, None);
    let plan = mint_amounts(&ledger, &o);
    assert_eq!(plan, vec![("id1".to_string(), 50_000_000_000), ("id2".to_string(), 7_000_000_000)]);
    let mut again = docs.clone();
    again.push(audit_record(&plan));
    assert_eq!(aggregate_documents(&again), Ok(vec![("id1".to_string(), 30_500_000_000)]));
}

#[test]
fn report_leaves_out_zero_balances() {
    let ledger = vec![("a".to_string(), 0), ("b".to_string(), 1)];
    assert_eq!(balance_lines(&ledger), vec!["b: 0.000000001".to_string()]);
    assert!(balance_lines(&vec![("z".to_string(), 0)]).is_empty());
}

#[test]
fn report_lines() {
    let ledger = vec![("a".to_string(), 80_500_000_000), ("bb".to_string(), 1)];
    assert_eq!(balance_lines(&ledger), vec!["a: 80.500000000".to_string(), "bb: 0.000000001".to_string()]);
    assert_eq!(
        summary_lines(&ledger),
        vec!["a\t80.500000000".to_string(), "bb\t 0.000000001".to_string()]
    );
}
