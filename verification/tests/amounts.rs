use payments::{parse_amount, parse_kind, parse_u16, parse_u32, render_amount, Amount, TransactionType};

#[test]
fn parse_whole_and_fractional_amounts() {
    assert_eq!(parse_amount("1.0").unwrap().units(), 10000);
    assert_eq!(parse_amount("1.5").unwrap().units(), 15000);
    assert_eq!(parse_amount("2").unwrap().units(), 20000);
    assert_eq!(parse_amount("0.0001").unwrap().units(), 1);
    assert_eq!(parse_amount(".5").unwrap().units(), 5000);
    assert_eq!(parse_amount("5.").unwrap().units(), 50000);
    assert_eq!(parse_amount("12345.6789").unwrap().units(), 123456789);
}

#[test]
fn parse_rounds_half_away_from_zero_on_the_fifth_digit() {
    assert_eq!(parse_amount("1.00003").unwrap().units(), 10000);
    assert_eq!(parse_amount("2.1111111").unwrap().units(), 21111);
    assert_eq!(parse_amount("0.00005").unwrap().units(), 1);
    assert_eq!(parse_amount("0.00004999").unwrap().units(), 0);
    assert_eq!(parse_amount("-0.00005").unwrap().units(), -1);
    assert_eq!(parse_amount("0.99995").unwrap().units(), 10000);
}

#[test]
fn parse_signs() {
    assert_eq!(parse_amount("-0.5").unwrap().units(), -5000);
    assert_eq!(parse_amount("+2.00005").unwrap().units(), 20001);
    assert_eq!(parse_amount("-0").unwrap().units(), 0);
}

#[test]
fn parse_rejects_malformed_amounts() {
    assert!(parse_amount("").is_none());
    assert!(parse_amount("abc").is_none());
    assert!(parse_amount("1.2.3").is_none());
    assert!(parse_amount("1,5").is_none());
    assert!(parse_amount("-").is_none());
    assert!(parse_amount(".").is_none());
    assert!(parse_amount("1e3").is_none());
    assert!(parse_amount(" 1").is_none());
}

#[test]
fn parse_rejects_out_of_range_amounts() {
    assert!(parse_amount("922337203685477.5807").is_some());
    assert!(parse_amount("922337203685477.5808").is_none());
    assert!(parse_amount("-922337203685477.5808").is_some());
    assert!(parse_amount("-922337203685477.5809").is_none());
    assert!(parse_amount("99999999999999999999").is_none());
}

#[test]
fn render_trims_trailing_zeros_but_keeps_one_digit() {
    assert_eq!(render_amount(Amount::from_units(15000)), "1.5");
    assert_eq!(render_amount(Amount::from_units(0)), "0.0");
    assert_eq!(render_amount(Amount::from_units(-5000)), "-0.5");
    assert_eq!(render_amount(Amount::from_units(21111)), "2.1111");
    assert_eq!(render_amount(Amount::from_units(20000)), "2.0");
    assert_eq!(render_amount(Amount::from_units(123456789)), "12345.6789");
    assert_eq!(render_amount(Amount::from_units(1)), "0.0001");
    assert_eq!(render_amount(Amount::from_units(10)), "0.001");
    assert_eq!(render_amount(Amount::from_units(100)), "0.01");
    assert_eq!(render_amount(Amount::from_units(1000)), "0.1");
}

#[test]
fn checked_arithmetic_is_exact_and_guards_the_range() {
    let a = Amount::from_units(15000);
    let b = Amount::from_units(-5000);
    assert_eq!(a.checked_add(b).unwrap().units(), 10000);
    assert_eq!(a.checked_sub(b).unwrap().units(), 20000);
    assert!(Amount::from_units(i64::MAX).checked_add(Amount::from_units(1)).is_none());
    assert!(Amount::from_units(i64::MIN).checked_sub(Amount::from_units(1)).is_none());
}

#[test]
fn parse_kind_accepts_the_five_tags_in_any_case() {
    assert_eq!(parse_kind("deposit"), Some(TransactionType::Deposit));
    assert_eq!(parse_kind("Withdrawal"), Some(TransactionType::Withdrawal));
    assert_eq!(parse_kind("DISPUTE"), Some(TransactionType::Dispute));
    assert_eq!(parse_kind("Resolve"), Some(TransactionType::Resolve));
    assert_eq!(parse_kind("chargeBACK"), Some(TransactionType::Chargeback));
    assert_eq!(parse_kind("deposits"), None);
    assert_eq!(parse_kind(""), None);
}

#[test]
fn parse_ids_respect_their_bounds() {
    assert_eq!(parse_u16("0"), Some(0));
    assert_eq!(parse_u16("65535"), Some(65535));
    assert_eq!(parse_u16("65536"), None);
    assert_eq!(parse_u16("12a"), None);
    assert_eq!(parse_u16(""), None);
    assert_eq!(parse_u32("4294967295"), Some(4294967295));
    assert_eq!(parse_u32("4294967296"), None);
    assert_eq!(parse_u32("007"), Some(7));
}
