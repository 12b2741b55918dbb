use octo::horizon::{check_page, check_response, payments_url, HorizonError, PaymentRecord};

fn record(id: &str) -> PaymentRecord {
    PaymentRecord {
        id: id.to_string(),
        paging_token: id.to_string(),
        kind: "payment".to_string(),
        transaction_hash: None,
        transaction_successful: true,
        from: None,
        to: None,
        to_muxed: None,
        to_muxed_id: None,
        asset_type: Some("native".to_string()),
        asset_code: None,
        asset_issuer: None,
        amount: Some("1.0000000".to_string()),
        starting_balance: None,
        transaction: None,
    }
}

#[test]
fn payments_url_without_cursor() {
    assert_eq!(
        payments_url("https://horizon-testnet.stellar.org", "GABC", None, 200),
        "https://horizon-testnet.stellar.org/accounts/GABC/payments?order=asc&limit=200&join=transactions"
    );
}

#[test]
fn payments_url_with_cursor() {
    assert_eq!(
        payments_url("http://h", "GABC", Some("12345"), 10),
        "http://h/accounts/GABC/payments?order=asc&limit=10&join=transactions&cursor=12345"
    );
}

#[test]
fn payments_url_trims_trailing_slashes() {
    assert_eq!(
        payments_url("http://h///", "G", None, 0),
        "http://h/accounts/G/payments?order=asc&limit=0&join=transactions"
    );
    assert_eq!(
        payments_url("http://h/", "G", None, 7),
        payments_url("http://h", "G", None, 7)
    );
}

#[test]
fn payments_url_limit_in_decimal() {
    let url = payments_url("h", "G", None, u32::MAX);
    assert_eq!(url, "h/accounts/G/payments?order=asc&limit=4294967295&join=transactions");
    let url = payments_url("", "G", None, 1000);
    assert_eq!(url, "/accounts/G/payments?order=asc&limit=1000&join=transactions");
}

#[test]
fn success_statuses_let_the_body_be_read() {
    assert_eq!(check_response(Some(200)), Ok(()));
    assert_eq!(check_response(Some(204)), Ok(()));
    assert_eq!(check_response(Some(299)), Ok(()));
}

#[test]
fn failures_and_non_success_statuses_are_request_errors() {
    assert_eq!(check_response(None), Err(HorizonError::Request));
    assert_eq!(check_response(Some(199)), Err(HorizonError::Request));
    assert_eq!(check_response(Some(300)), Err(HorizonError::Request));
    assert_eq!(check_response(Some(404)), Err(HorizonError::Request));
    assert_eq!(check_response(Some(500)), Err(HorizonError::Request));
}

#[test]
fn undecodable_page_is_a_decode_error() {
    assert!(matches!(check_page(None), Err(HorizonError::Decode)));
    let page = check_page(Some(vec![record("1"), record("2")])).expect("page");
    assert_eq!(page.len(), 2);
    assert_eq!(page[0].id, "1");
    assert_eq!(page[1].id, "2");
}
