use rust_core::document::extract_quotes;
use rust_core::fee::{get_cache_size, FeeCache, FeeError};
use rust_core::quote::{parse_quote, QUOTE_LIMIT};
use rust_core::scan::{apply_defaults, decide_arb, find_arb, scan_quotes};

const DOC_A: &str = "{\"rewards\":[{\"price\":0.40},{\"price\":0.55}]}";
const DOC_B: &str = "{\"rewards\":[{\"price\":0.50},{\"price\":0.50}]}";

#[test]
fn scenario_a_finds_arbitrage() {
    let mut cache = FeeCache::new();
    assert_eq!(find_arb(&mut cache, DOC_A, 0), Ok((true, 400_000, 550_000)));
    assert_eq!(get_cache_size(&cache), 2);
}

#[test]
fn scenario_b_midpoint_is_no_arbitrage() {
    let mut cache = FeeCache::new();
    assert_eq!(find_arb(&mut cache, DOC_B, 0), Ok((false, 0, 0)));
}

#[test]
fn scenario_c_malformed_document_defaults() {
    let mut cache = FeeCache::new();
    assert_eq!(find_arb(&mut cache, "{}", 0), Ok((false, 0, 0)));
    assert_eq!(find_arb(&mut cache, "not json at all", 0), Ok((false, 0, 0)));
    assert_eq!(find_arb(&mut cache, "", 0), Ok((false, 0, 0)));
}

#[test]
fn scenario_d_margin_flips_decision() {
    let mut cache = FeeCache::new();
    assert_eq!(find_arb(&mut cache, DOC_A, 50_000), Ok((false, 0, 0)));
    // 0.97445 < 1 - 0.025
    assert_eq!(find_arb(&mut cache, DOC_A, 25_000), Ok((true, 400_000, 550_000)));
    assert_eq!(find_arb(&mut cache, DOC_A, 2_000_000), Ok((false, 0, 0)));
}

#[test]
fn out_of_range_price_in_document_fails() {
    let mut cache = FeeCache::new();
    let doc = "{\"rewards\":[{\"price\":1.5},{\"price\":0.5}]}";
    assert_eq!(find_arb(&mut cache, doc, 0), Err(FeeError::OutOfRange { price: 1_500_000 }));
    let doc = "{\"rewards\":[{\"price\":0.5},{\"price\":-0.1}]}";
    assert_eq!(find_arb(&mut cache, doc, 0), Err(FeeError::OutOfRange { price: -100_000 }));
}

#[test]
fn missing_or_non_numeric_fields_default() {
    assert_eq!(extract_quotes("{\"rewards\":[{\"price\":0.4}]}"), (Some(400_000), None));
    assert_eq!(extract_quotes("{\"rewards\":[{\"price\":\"0.4\"},{\"cost\":0.3}]}"), (None, None));
    assert_eq!(extract_quotes("{\"rewards\":{\"price\":0.4}}"), (None, None));
    assert_eq!(extract_quotes(DOC_A), (Some(400_000), Some(550_000)));
    let mut cache = FeeCache::new();
    // 0.4 + 1.0 + 0.4 * 0.024 + 1.0 * 0.001 > 1
    assert_eq!(find_arb(&mut cache, "{\"rewards\":[{\"price\":0.4}]}", 0), Ok((false, 0, 0)));
}

#[test]
fn defaulting_stage() {
    assert_eq!(apply_defaults(None, None), (1_000_000, 1_000_000));
    assert_eq!(apply_defaults(Some(250_000), None), (250_000, 1_000_000));
    assert_eq!(apply_defaults(None, Some(-3)), (1_000_000, -3));
}

#[test]
fn decision_on_prices() {
    let mut cache = FeeCache::new();
    assert_eq!(decide_arb(&mut cache, 400_000, 550_000, 0), Ok((true, 400_000, 550_000)));
    assert_eq!(decide_arb(&mut cache, 500_000, 500_000, 0), Ok((false, 0, 0)));
    assert_eq!(decide_arb(&mut cache, 0, 0, 999_999), Ok((true, 0, 0)));
    assert_eq!(decide_arb(&mut cache, 0, 0, 1_000_000), Ok((false, 0, 0)));
    assert_eq!(scan_quotes(&mut cache, None, None, 0), Ok((false, 0, 0)));
    assert_eq!(scan_quotes(&mut cache, Some(400_000), Some(550_000), 0), Ok((true, 400_000, 550_000)));
    assert_eq!(scan_quotes(&mut cache, Some(7_000_000), None, 0), Err(FeeError::OutOfRange { price: 7_000_000 }));
}

#[test]
fn quote_plain_decimals() {
    assert_eq!(parse_quote(b"0.55"), Some(550_000));
    assert_eq!(parse_quote(b"0.40"), Some(400_000));
    assert_eq!(parse_quote(b"1.0"), Some(1_000_000));
    assert_eq!(parse_quote(b"1"), Some(1_000_000));
    assert_eq!(parse_quote(b"0"), Some(0));
    assert_eq!(parse_quote(b"-0.1"), Some(-100_000));
    assert_eq!(parse_quote(b"1.1"), Some(1_100_000));
}

#[test]
fn quote_rounds_to_millionths() {
    assert_eq!(parse_quote(b"0.4999995"), Some(500_000));
    assert_eq!(parse_quote(b"0.4999994"), Some(499_999));
    assert_eq!(parse_quote(b"0.0000005"), Some(1));
    assert_eq!(parse_quote(b"0.00000049"), Some(0));
    assert_eq!(parse_quote(b"-0.0000005"), Some(-1));
    assert_eq!(parse_quote(b"123456789012345678901234567890e-30"), Some(123_457));
}

#[test]
fn quote_exponents() {
    assert_eq!(parse_quote(b"1e-7"), Some(0));
    assert_eq!(parse_quote(b"5e-7"), Some(1));
    assert_eq!(parse_quote(b"1.25E+2"), Some(125_000_000));
    assert_eq!(parse_quote(b"4e-1"), Some(400_000));
    assert_eq!(parse_quote(b"1e300"), Some(QUOTE_LIMIT));
    assert_eq!(parse_quote(b"-1e300"), Some(-QUOTE_LIMIT));
    assert_eq!(parse_quote(b"0e99999999999999999999999"), Some(0));
    assert_eq!(parse_quote(b"7e-99999999999999999999999"), Some(0));
}

#[test]
fn quote_rejects_non_numbers() {
    assert_eq!(parse_quote(b""), None);
    assert_eq!(parse_quote(b"-"), None);
    assert_eq!(parse_quote(b"abc"), None);
    assert_eq!(parse_quote(b"1."), None);
    assert_eq!(parse_quote(b".5"), None);
    assert_eq!(parse_quote(b"1e"), None);
    assert_eq!(parse_quote(b"1e+"), None);
    assert_eq!(parse_quote(b"0.5x"), None);
}

#[test]
fn document_prices_in_exponent_form() {
    let mut cache = FeeCache::new();
    let doc = "{\"rewards\":[{\"price\":1e-7},{\"price\":5E-1}]}";
    assert_eq!(extract_quotes(doc), (Some(0), Some(500_000)));
    // 0.0 + 0.5 + 0.0 * 0.001 + 0.5 * 0.03 = 0.515
    assert_eq!(find_arb(&mut cache, doc, 0), Ok((true, 0, 500_000)));
    assert_eq!(extract_quotes("{\"rewards\":[{\"price\":-0.0},{\"price\":1}]}"), (Some(0), Some(1_000_000)));
}

#[test]
fn quote_never_rounds_into_range() {
    assert_eq!(parse_quote(b"1.0000004"), Some(1_000_001));
    assert_eq!(parse_quote(b"1.0000005"), Some(1_000_001));
    assert_eq!(parse_quote(b"1000000400e-9"), Some(1_000_001));
    assert_eq!(parse_quote(b"-0.0000004"), Some(-1));
    assert_eq!(parse_quote(b"-1e-7"), Some(-1));
    assert_eq!(parse_quote(b"1.000000"), Some(1_000_000));
    assert_eq!(parse_quote(b"100e-2"), Some(1_000_000));
    assert_eq!(parse_quote(b"0.9999996"), Some(1_000_000));
    assert_eq!(parse_quote(b"-0"), Some(0));
}

#[test]
fn document_price_just_outside_range_fails() {
    let mut cache = FeeCache::new();
    let doc = "{\"rewards\":[{\"price\":1.0000004},{\"price\":0.2}]}";
    assert_eq!(find_arb(&mut cache, doc, 0), Err(FeeError::OutOfRange { price: 1_000_001 }));
    let doc = "{\"rewards\":[{\"price\":0.2},{\"price\":-0.0000004}]}";
    assert_eq!(find_arb(&mut cache, doc, 0), Err(FeeError::OutOfRange { price: -1 }));
    let doc = "{\"rewards\":[{\"price\":1.5},{\"price\":0.2}]}";
    assert_eq!(find_arb(&mut cache, doc, 30_000), Err(FeeError::OutOfRange { price: 1_500_000 }));
}
