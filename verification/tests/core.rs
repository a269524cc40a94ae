use currency_cache::exchange::{convert_value, get_rate as engine_get_rate, update_rate};
use currency_cache::provider::{
    apply_currencies, apply_fetch, classify_error, settle_key_setup, FetchOutcome, RatesResponse,
    Status,
};
use currency_cache::store::{ApiError, Store};

/// The shared fixture: a fresh store with the test credential, the provider's
/// currency list, a rates table for PLN (EUR quoted at 0.2325), and a
/// directly upserted PLN -> USD rate of 0.2546.
fn setup_test() -> Store {
    let mut store = Store::create_cache();
    store.set_api_key("testKey".to_string());
    store.add_code(&"PLN".to_string(), &"Polish zloty".to_string());
    let codes = vec![
        ("PLN".to_string(), "Polish Zloty".to_string()),
        ("EUR".to_string(), "Euro".to_string()),
        ("USD".to_string(), "United States Dollar".to_string()),
    ];
    apply_currencies(&mut store, &codes);
    let response = RatesResponse {
        base_code: "PLN".to_string(),
        time_next_update_unix: 99710201602,
        conversion_rates: vec![
            ("EUR".to_string(), "0.2325".to_string()),
            ("USD".to_string(), "0.2545".to_string()),
        ],
    };
    apply_fetch(&mut store, &FetchOutcome::Rates(response)).expect("rates fetch should apply");
    let rates = vec![("USD".to_string(), "0.2546".to_string())];
    store.add_rates(99710201602, &"PLN".to_string(), &rates);
    store
}

#[test]
fn test_cache_get_api_key() {
    let store = setup_test();

    assert_eq!(store.get_api_key(), "testKey");
}

#[test]
fn test_cache_check_code() {
    let store = setup_test();

    assert!(store.check_code(&"PLN".to_string()));
}

#[test]
fn test_cache_get_rates() {
    let store = setup_test();

    assert_eq!(
        store
            .get_rate(&"PLN".to_string(), &"USD".to_string())
            .expect("Error getting rates"),
        "0.2546"
    );
}

#[test]
fn test_cache_check_exchange() {
    let store = setup_test();

    assert!(store.check_exchange(&"PLN".to_string(), &"USD".to_string()));
}

#[test]
fn test_exchange_convert_value() {
    let store = setup_test();
    let result = convert_value(
        &store,
        &"PLN".to_string(),
        &"EUR".to_string(),
        &"100".to_string(),
    )
    .expect("conversion should succeed");
    assert_eq!(result.rate, "0.2325".to_string());
    assert_eq!(result.from, "100zł".to_string());
    assert_eq!(result.to, "€23,25".to_string());
}

#[test]
fn added_code_is_found_and_stale() {
    let mut store = Store::create_cache();
    assert!(!store.check_code(&"chf".to_string()));
    store.add_code(&"chf".to_string(), &"Swiss Franc".to_string());
    assert!(store.check_code(&"chf".to_string()));
    assert!(store.check_code(&"CHF".to_string()));
    let nu = store
        .get_next_update(&"CHF".to_string())
        .expect("the code was just added");
    assert_eq!(nu, 0);
    // immediately stale at any clock reading
    assert_eq!(update_rate(&store, &"CHF".to_string(), 0), Ok(true));
}

#[test]
fn add_code_keeps_existing_row() {
    let mut store = setup_test();
    store.add_code(&"PLN".to_string(), &"Another Name".to_string());
    let nu = store.get_next_update(&"PLN".to_string()).unwrap();
    assert_eq!(nu, 99710201602);
    let listing = store.list_currencies();
    let pln = listing.iter().find(|c| c.0 == "PLN").unwrap();
    assert_eq!(pln.1, "Polish zloty");
}

#[test]
fn rate_text_round_trips_exactly() {
    let mut store = setup_test();
    let rates = vec![("EUR".to_string(), "0.23250000".to_string())];
    store.add_rates(99710201602, &"PLN".to_string(), &rates);
    assert_eq!(
        store
            .get_rate(&"PLN".to_string(), &"EUR".to_string())
            .unwrap(),
        "0.23250000"
    );
}

#[test]
fn fresh_base_needs_no_provider_call() {
    let store = setup_test();
    // next_update is far in the future: the refresh decision is "no fetch"
    assert_eq!(update_rate(&store, &"PLN".to_string(), 1_700_000_000), Ok(false));
}

#[test]
fn refresh_advances_next_update_and_rows() {
    let mut store = setup_test();
    let before = store.get_next_update(&"PLN".to_string()).unwrap();
    let response = RatesResponse {
        base_code: "pln".to_string(),
        time_next_update_unix: 99710201700,
        conversion_rates: vec![
            ("EUR".to_string(), "0.2400".to_string()),
            ("CZK".to_string(), "5.8123".to_string()),
        ],
    };
    apply_fetch(&mut store, &FetchOutcome::Rates(response)).unwrap();
    let after = store.get_next_update(&"PLN".to_string()).unwrap();
    assert!(after >= before);
    assert!(store.check_exchange(&"PLN".to_string(), &"EUR".to_string()));
    assert!(store.check_exchange(&"PLN".to_string(), &"CZK".to_string()));
    // a pair outside the response is untouched
    assert_eq!(
        store
            .get_rate(&"PLN".to_string(), &"USD".to_string())
            .unwrap(),
        "0.2546"
    );
}

#[test]
fn failed_fetch_leaves_store_alone() {
    let mut store = setup_test();
    let r = apply_fetch(&mut store, &FetchOutcome::Failed(Status::INVALID));
    assert_eq!(r, Err(ApiError::InvalidCredential));
    let r = apply_fetch(&mut store, &FetchOutcome::Failed(Status::LIMIT));
    assert_eq!(r, Err(ApiError::QuotaExceeded));
    let r = apply_fetch(&mut store, &FetchOutcome::Failed(Status::ERROR));
    assert_eq!(r, Err(ApiError::Other));
    assert_eq!(
        store
            .get_rate(&"PLN".to_string(), &"EUR".to_string())
            .unwrap(),
        "0.2325"
    );
    assert_eq!(store.get_next_update(&"PLN".to_string()).unwrap(), 99710201602);
}

#[test]
fn identity_conversion_returns_input() {
    let store = setup_test();
    let result = convert_value(
        &store,
        &"PLN".to_string(),
        &"PLN".to_string(),
        &"100".to_string(),
    )
    .expect("identity conversion of a known code");
    assert_eq!(result.from, result.to);
    assert_eq!(result.from, "100zł");
    assert_eq!(result.rate, "1");
}

#[test]
fn conversion_to_usd_formats_in_dollars() {
    let store = setup_test();
    let result = convert_value(
        &store,
        &"PLN".to_string(),
        &"USD".to_string(),
        &"100".to_string(),
    )
    .unwrap();
    assert_eq!(result.rate, "0.2546");
    assert_eq!(result.to, "$25.46");
}

#[test]
fn rounding_is_half_away_from_zero() {
    let mut store = setup_test();
    let rates = vec![("USD".to_string(), "0.125".to_string())];
    store.add_rates(99710201602, &"PLN".to_string(), &rates);
    let result = convert_value(
        &store,
        &"PLN".to_string(),
        &"USD".to_string(),
        &"1".to_string(),
    )
    .unwrap();
    // 0.125 rounds up to 0.13 at two minor units, not down to 0.12
    assert_eq!(result.to, "$0.13");
}

#[test]
fn unknown_code_is_not_found_and_mutates_nothing() {
    let store = setup_test();
    let r = convert_value(
        &store,
        &"XXA".to_string(),
        &"EUR".to_string(),
        &"100".to_string(),
    );
    assert!(matches!(r, Err(ApiError::NotFound)));
    // no row appeared and no timestamp moved
    assert!(!store.check_code(&"XXA".to_string()));
    assert_eq!(store.get_next_update(&"PLN".to_string()).unwrap(), 99710201602);
    assert_eq!(store.list_currencies().len(), 3);
}

#[test]
fn non_numeric_amount_is_a_validation_error() {
    let store = setup_test();
    let r = convert_value(
        &store,
        &"PLN".to_string(),
        &"EUR".to_string(),
        &"abc".to_string(),
    );
    assert!(matches!(r, Err(ApiError::Validation)));
    // rejected even before the codes are looked at
    let r = convert_value(
        &store,
        &"XXA".to_string(),
        &"XXB".to_string(),
        &"abc".to_string(),
    );
    assert!(matches!(r, Err(ApiError::Validation)));
}

#[test]
fn listings_are_ordered() {
    let mut store = Store::create_cache();
    store.add_code(&"usd".to_string(), &"Dollar".to_string());
    store.add_code(&"PLN".to_string(), &"Zloty".to_string());
    store.add_code(&"eur".to_string(), &"Euro".to_string());
    let currencies = store.list_currencies();
    let codes: Vec<String> = currencies.iter().map(|c| c.0.clone()).collect();
    assert_eq!(codes, vec!["EUR", "PLN", "USD"]);
    let rates = vec![
        ("USD".to_string(), "0.2546".to_string()),
        ("EUR".to_string(), "0.2325".to_string()),
    ];
    store.add_rates(5, &"PLN".to_string(), &rates);
    let listed = store.list_rates(&"PLN".to_string());
    assert_eq!(listed.len(), 2);
    assert_eq!(listed[0], ("EUR".to_string(), "0.2325".to_string()));
    assert_eq!(listed[1], ("USD".to_string(), "0.2546".to_string()));
    assert_eq!(store.list_rates(&"EUR".to_string()).len(), 0);
}

#[test]
fn engine_get_rate_checks_codes_first() {
    let store = setup_test();
    assert_eq!(
        engine_get_rate(&store, &"pln".to_string(), &"usd".to_string()).unwrap(),
        "0.2546"
    );
    assert_eq!(
        engine_get_rate(&store, &"XXA".to_string(), &"USD".to_string()),
        Err(ApiError::NotFound)
    );
    assert_eq!(
        engine_get_rate(&store, &"USD".to_string(), &"PLN".to_string()),
        Err(ApiError::NotFound)
    );
}

#[test]
fn amount_cap_rejects_oversized_text() {
    let store = setup_test();
    // twenty integer digits exceed the mantissa cap
    let r = convert_value(
        &store,
        &"PLN".to_string(),
        &"EUR".to_string(),
        &"10000000000000000000".to_string(),
    );
    assert!(matches!(r, Err(ApiError::Validation)));
    // nineteen digits are still fine
    let r = convert_value(
        &store,
        &"PLN".to_string(),
        &"EUR".to_string(),
        &"1000000000000000000".to_string(),
    );
    assert!(r.is_ok());
}

#[test]
fn signed_and_dotted_amounts_parse() {
    let store = setup_test();
    let r = convert_value(
        &store,
        &"PLN".to_string(),
        &"EUR".to_string(),
        &"-4.20".to_string(),
    )
    .unwrap();
    assert_eq!(r.from, "-4,20zł");
    let r = convert_value(
        &store,
        &"PLN".to_string(),
        &"EUR".to_string(),
        &"+1.5".to_string(),
    );
    assert!(r.is_ok());
    let r = convert_value(
        &store,
        &"PLN".to_string(),
        &"EUR".to_string(),
        &"1.2.3".to_string(),
    );
    assert!(matches!(r, Err(ApiError::Validation)));
    let r = convert_value(
        &store,
        &"PLN".to_string(),
        &"EUR".to_string(),
        &"".to_string(),
    );
    assert!(matches!(r, Err(ApiError::Validation)));
}

#[test]
fn classify_error_matches_provider_texts() {
    assert_eq!(classify_error(&"invalid-key".to_string()), Status::INVALID);
    assert_eq!(classify_error(&"quota-reached".to_string()), Status::LIMIT);
    assert_eq!(classify_error(&"anything-else".to_string()), Status::ERROR);
}

#[test]
fn key_setup_resets_on_failure() {
    let mut store = Store::create_cache();
    store.set_api_key("someKey".to_string());
    assert!(settle_key_setup(&mut store, Status::OK));
    assert_eq!(store.get_api_key(), "someKey");
    assert!(!settle_key_setup(&mut store, Status::INVALID));
    assert_eq!(store.get_api_key(), "");
}

#[test]
fn clock_reads_after_the_epoch() {
    // a sane wall clock: well after 2020, and not before a later reading
    let t1 = currency_cache::clock::get_current_time();
    let t2 = currency_cache::clock::get_current_time();
    assert!(t1 > 1_600_000_000);
    assert!(t2 >= t1);
}
