use rpow2_authorized_miner::units::{
    BaseUnitValue, MeResponse, format_base_units, try_format_base_units,
};

#[test]
fn base_units_are_formatted_as_rpow() {
    assert_eq!(format_base_units("0"), "0");
    assert_eq!(format_base_units("1"), "0.000000001");
    assert_eq!(format_base_units("1000000000"), "1");
    assert_eq!(format_base_units("1234567890"), "1.23456789");
}

#[test]
fn base_units_edge_cases() {
    assert_eq!(format_base_units(""), "0");
    assert_eq!(format_base_units("   "), "0");
    assert_eq!(format_base_units(" 000 "), "0");
    assert_eq!(format_base_units("\t0002000000\n"), "0.002");
    assert_eq!(format_base_units("2000000"), "0.002");
    assert_eq!(format_base_units("999999999"), "0.999999999");
    assert_eq!(format_base_units("12000000000"), "12");
    assert_eq!(format_base_units("18446744073709551615"), "18446744073.709551615");
    assert_eq!(format_base_units("100000000000000000000"), "100000000000");
}

#[test]
fn base_units_count_bytes_like_str_len() {
    // "é" takes two bytes: the whole part ends nine bytes before the end.
    assert_eq!(format_base_units("1é2345678"), "1.é2345678");
    assert_eq!(format_base_units("é123456789"), "é.123456789");
    assert_eq!(format_base_units("12345678é"), "1.2345678é");
    // Nine bytes or fewer: padded to nine characters.
    assert_eq!(format_base_units("1234567é"), "0.01234567é");
    assert_eq!(format_base_units("é"), "0.00000000é");
    // Nine bytes from the end falls inside "é": no split is possible.
    assert_eq!(try_format_base_units("é12345678"), None);
    assert_eq!(try_format_base_units("1"), Some("0.000000001".to_string()));
}

fn me(
    balance_base_units: Option<BaseUnitValue>,
    minted_base_units: Option<BaseUnitValue>,
    balance: Option<BaseUnitValue>,
    minted: Option<BaseUnitValue>,
) -> MeResponse {
    MeResponse {
        email: "owner@example.com".to_string(),
        balance_base_units,
        minted_base_units,
        sent_base_units: Some(BaseUnitValue::String("0".to_string())),
        received_base_units: Some(BaseUnitValue::String("50".to_string())),
        balance,
        minted,
    }
}

#[test]
fn me_reads_the_current_base_units_schema() {
    let me = me(
        Some(BaseUnitValue::String("1234567890".to_string())),
        Some(BaseUnitValue::String("2000000".to_string())),
        None,
        None,
    );
    assert_eq!(me.balance_base_units().unwrap(), "1234567890");
    assert_eq!(me.minted_base_units().unwrap(), "2000000");
    assert_eq!(me.sent_base_units().unwrap(), "0");
    assert_eq!(me.received_base_units().unwrap(), "50");
}

#[test]
fn me_reads_the_legacy_numeric_schema() {
    let me = me(None, None, Some(BaseUnitValue::Number(1)), Some(BaseUnitValue::Number(2)));
    assert_eq!(me.balance_base_units().unwrap(), "1");
    assert_eq!(me.minted_base_units().unwrap(), "2");
}

#[test]
fn me_prefers_the_current_fields() {
    let me = me(
        Some(BaseUnitValue::Number(10)),
        None,
        Some(BaseUnitValue::Number(1)),
        None,
    );
    assert_eq!(me.balance_base_units().unwrap(), "10");
    assert_eq!(me.minted_base_units(), None);
}

#[test]
fn numbers_are_written_in_decimal() {
    assert_eq!(BaseUnitValue::Number(0).as_cow(), "0");
    assert_eq!(BaseUnitValue::Number(1_000_000_000).as_cow(), "1000000000");
    assert_eq!(BaseUnitValue::Number(u64::MAX).as_cow(), u64::MAX.to_string());
    assert_eq!(BaseUnitValue::String("x".to_string()).as_cow(), "x");
}
