use ledger_engine::amount::{format_amount, parse_amount, split_amount, PLACES, SCALE};
use ledger_engine::error::ProcessError;

const MALFORMED: Result<i64, ProcessError> = Err(ProcessError::MalformedTransaction);

#[test]
fn scale_is_four_places() {
    assert_eq!(SCALE, 10_000);
    assert_eq!(PLACES, 4);
}

#[test]
fn whole_numbers() {
    assert_eq!(parse_amount("0"), Ok(0));
    assert_eq!(parse_amount("5"), Ok(50_000));
    assert_eq!(parse_amount("1337"), Ok(13_370_000));
    assert_eq!(parse_amount("007"), Ok(70_000));
}

#[test]
fn up_to_four_places_are_exact() {
    assert_eq!(parse_amount("5.0"), Ok(50_000));
    assert_eq!(parse_amount("7.0"), Ok(70_000));
    assert_eq!(parse_amount("1.5"), Ok(15_000));
    assert_eq!(parse_amount("1.25"), Ok(12_500));
    assert_eq!(parse_amount("1.125"), Ok(11_250));
    assert_eq!(parse_amount("1.0001"), Ok(10_001));
    assert_eq!(parse_amount("0.0001"), Ok(1));
    assert_eq!(parse_amount("2.7420"), Ok(27_420));
}

#[test]
fn a_half_at_the_fifth_place_rounds_away_from_zero() {
    assert_eq!(parse_amount("1.00005"), Ok(10_001));
    assert_eq!(parse_amount("1.00004"), Ok(10_000));
    assert_eq!(parse_amount("-1.00005"), Ok(-10_001));
    assert_eq!(parse_amount("-1.00004"), Ok(-10_000));
    assert_eq!(parse_amount("0.00005"), Ok(1));
    assert_eq!(parse_amount("0.00004"), Ok(0));
    assert_eq!(parse_amount("-0.00005"), Ok(-1));
    assert_eq!(parse_amount("-0.00004"), Ok(0));
}

#[test]
fn only_the_fifth_place_decides() {
    assert_eq!(parse_amount("1.000049999999999999999999999999"), Ok(10_000));
    assert_eq!(parse_amount("1.000050000000000000000000000000"), Ok(10_001));
    assert_eq!(parse_amount("1.00009"), Ok(10_001));
    assert_eq!(parse_amount("1.99995"), Ok(20_000));
    assert_eq!(parse_amount("9.99999"), Ok(100_000));
    assert_eq!(parse_amount("2.12344"), Ok(21_234));
    assert_eq!(parse_amount("2.12345"), Ok(21_235));
}

#[test]
fn signs() {
    assert_eq!(parse_amount("+5"), Ok(50_000));
    assert_eq!(parse_amount("-5"), Ok(-50_000));
    assert_eq!(parse_amount("-0"), Ok(0));
    assert_eq!(parse_amount("+0.0"), Ok(0));
    assert_eq!(parse_amount("-"), MALFORMED);
    assert_eq!(parse_amount("+"), MALFORMED);
    assert_eq!(parse_amount("--5"), MALFORMED);
    assert_eq!(parse_amount("+-5"), MALFORMED);
    assert_eq!(parse_amount("5-"), MALFORMED);
}

#[test]
fn a_point_needs_a_digit_on_one_side() {
    assert_eq!(parse_amount("5."), Ok(50_000));
    assert_eq!(parse_amount(".5"), Ok(5_000));
    assert_eq!(parse_amount("-.5"), Ok(-5_000));
    assert_eq!(parse_amount("."), MALFORMED);
    assert_eq!(parse_amount("-."), MALFORMED);
    assert_eq!(parse_amount("1.2.3"), MALFORMED);
    assert_eq!(parse_amount("1..2"), MALFORMED);
    assert_eq!(parse_amount(".00001.5"), MALFORMED);
}

#[test]
fn what_is_no_decimal_number_is_malformed() {
    assert_eq!(parse_amount(""), MALFORMED);
    assert_eq!(parse_amount(" 5"), MALFORMED);
    assert_eq!(parse_amount("5 "), MALFORMED);
    assert_eq!(parse_amount("1,5"), MALFORMED);
    assert_eq!(parse_amount("1e3"), MALFORMED);
    assert_eq!(parse_amount("abc"), MALFORMED);
    assert_eq!(parse_amount("1.5x"), MALFORMED);
    assert_eq!(parse_amount("1.00005x"), MALFORMED);
    assert_eq!(parse_amount("1.000051x"), MALFORMED);
    assert_eq!(parse_amount("1.0000x"), MALFORMED);
    assert_eq!(parse_amount("inf"), MALFORMED);
    assert_eq!(parse_amount("NaN"), MALFORMED);
    assert_eq!(parse_amount("٣"), MALFORMED);
    assert_eq!(parse_amount("1.5€"), MALFORMED);
    assert_eq!(parse_amount("５"), MALFORMED);
}

#[test]
fn the_greatest_and_the_least_amount() {
    assert_eq!(parse_amount("922337203685477.5807"), Ok(i64::MAX));
    assert_eq!(parse_amount("922337203685477.58074"), Ok(i64::MAX));
    assert_eq!(parse_amount("922337203685477.58075"), MALFORMED);
    assert_eq!(parse_amount("922337203685477.5808"), MALFORMED);
    assert_eq!(parse_amount("-922337203685477.5808"), Ok(i64::MIN));
    assert_eq!(parse_amount("-922337203685477.58084"), Ok(i64::MIN));
    assert_eq!(parse_amount("-922337203685477.58085"), MALFORMED);
    assert_eq!(parse_amount("-922337203685477.5809"), MALFORMED);
    assert_eq!(parse_amount("922337203685478"), MALFORMED);
    assert_eq!(parse_amount("-922337203685478"), MALFORMED);
    assert_eq!(parse_amount("922337203685477"), Ok(9_223_372_036_854_770_000));
    assert_eq!(parse_amount("922337203685477.6"), MALFORMED);
    assert_eq!(parse_amount("9223372036854775807"), MALFORMED);
    assert_eq!(
        parse_amount("100000000000000000000000000000000000000000000000000"),
        MALFORMED
    );
    assert_eq!(
        parse_amount("000000000000000000000000000000000000000000000000001.5"),
        Ok(15_000)
    );
    assert_eq!(
        parse_amount("99999999999999999999999999999999999999x"),
        MALFORMED
    );
}

#[test]
fn split_small_amounts() {
    assert_eq!(split_amount(0), (false, 0, 0));
    assert_eq!(split_amount(1), (false, 0, 1));
    assert_eq!(split_amount(-1), (true, 0, 1));
    assert_eq!(split_amount(50_000), (false, 5, 0));
    assert_eq!(split_amount(10_001), (false, 1, 1));
    assert_eq!(split_amount(-15_000), (true, 1, 5_000));
    assert_eq!(split_amount(9_999), (false, 0, 9_999));
    assert_eq!(split_amount(-10_000), (true, 1, 0));
}

#[test]
fn split_the_greatest_and_the_least_amount() {
    assert_eq!(split_amount(i64::MAX), (false, 922_337_203_685_477, 5_807));
    assert_eq!(split_amount(i64::MIN), (true, 922_337_203_685_477, 5_808));
    assert_eq!(split_amount(i64::MIN + 1), (true, 922_337_203_685_477, 5_807));
}

#[test]
fn amounts_are_written_with_four_places() {
    assert_eq!(format_amount(0), "0.0000");
    assert_eq!(format_amount(1), "0.0001");
    assert_eq!(format_amount(-1), "-0.0001");
    assert_eq!(format_amount(50_000), "5.0000");
    assert_eq!(format_amount(15_000), "1.5000");
    assert_eq!(format_amount(10_001), "1.0001");
    assert_eq!(format_amount(-27_420), "-2.7420");
    assert_eq!(format_amount(9_999), "0.9999");
    assert_eq!(format_amount(10_000), "1.0000");
    assert_eq!(format_amount(1_002_030), "100.2030");
    assert_eq!(format_amount(13_370_000), "1337.0000");
    assert_eq!(format_amount(i64::MAX), "922337203685477.5807");
    assert_eq!(format_amount(i64::MIN), "-922337203685477.5808");
}

#[test]
fn what_is_written_reads_back() {
    let amounts = [
        0,
        1,
        -1,
        9,
        10,
        99,
        100,
        999,
        1_000,
        9_999,
        -9_999,
        10_000,
        -10_000,
        10_001,
        123_456_789,
        -123_456_789,
        i64::MAX,
        i64::MAX - 1,
        i64::MIN,
        i64::MIN + 1,
    ];
    for amount in amounts {
        assert_eq!(parse_amount(&format_amount(amount)), Ok(amount));
    }
}

#[test]
fn what_is_read_is_written_in_full() {
    assert_eq!(format_amount(parse_amount("5").unwrap()), "5.0000");
    assert_eq!(format_amount(parse_amount("+.5").unwrap()), "0.5000");
    assert_eq!(format_amount(parse_amount("-007.25").unwrap()), "-7.2500");
    assert_eq!(format_amount(parse_amount("1.00005").unwrap()), "1.0001");
    assert_eq!(format_amount(parse_amount("-0.00001").unwrap()), "0.0000");
}
