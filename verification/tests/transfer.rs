use bzmm::errors::ModError;
use bzmm::transfer::{
    calculate_progress, parse_content_length, status_is_success, validate_url, Transfer,
};

#[test]
fn empty_and_non_http_urls_are_rejected() {
    assert!(validate_url("").is_err());
    assert!(validate_url("ftp://host/file").is_err());
    assert!(validate_url("http://host/file").is_ok());
    assert!(validate_url("https://host/file").is_ok());
    match validate_url("") {
        Err(ModError::InvalidUrl(_)) => {}
        _ => panic!("an empty URL must be an invalid-URL error"),
    }
}

#[test]
fn status_codes_in_the_two_hundreds_succeed() {
    assert!(status_is_success(200));
    assert!(status_is_success(204));
    assert!(status_is_success(299));
    assert!(!status_is_success(199));
    assert!(!status_is_success(300));
    assert!(!status_is_success(404));
}

#[test]
fn content_length_parses_plain_numbers_and_defaults_to_zero() {
    assert_eq!(parse_content_length(Some("1024")), 1024);
    assert_eq!(parse_content_length(Some("0")), 0);
    assert_eq!(parse_content_length(None), 0);
    assert_eq!(parse_content_length(Some("")), 0);
    assert_eq!(parse_content_length(Some("12a4")), 0);
    assert_eq!(parse_content_length(Some("99999999999999999999999999")), 0);
}

#[test]
fn progress_is_an_integer_percentage() {
    assert_eq!(calculate_progress(0, 200), 0);
    assert_eq!(calculate_progress(1, 200), 0);
    assert_eq!(calculate_progress(50, 200), 25);
    assert_eq!(calculate_progress(199, 200), 99);
    assert_eq!(calculate_progress(200, 200), 100);
    assert_eq!(calculate_progress(10, 0), 0);
}

#[test]
fn progress_observations_fire_only_when_the_percentage_advances() {
    let mut t = Transfer::begin("http://host/a.zip").unwrap();
    t.set_total(Some("200"));
    assert_eq!(t.total, 200);
    // one byte: still 0%, nothing to report
    assert_eq!(t.on_chunk(1), None);
    // up to 25%: one observation
    assert_eq!(t.on_chunk(49), Some(25));
    // no advance, no observation
    assert_eq!(t.on_chunk(0), None);
    // jumping to 100%
    assert_eq!(t.on_chunk(150), Some(100));
}

#[test]
fn a_final_observation_guarantees_one_hundred_percent() {
    let mut t = Transfer::begin("http://host/a.zip").unwrap();
    t.set_total(Some("1000"));
    assert_eq!(t.on_chunk(500), Some(50));
    let emit = t.finalize(500).unwrap();
    assert_eq!(emit, Some(100));
}

#[test]
fn an_empty_result_file_is_an_error() {
    let mut t = Transfer::begin("http://host/a.zip").unwrap();
    t.set_total(None);
    match t.finalize(0) {
        Err(ModError::IoError(_)) => {}
        _ => panic!("an empty downloaded file must be an error"),
    }
}

#[test]
fn cancellation_is_a_distinct_outcome() {
    let mut t = Transfer::begin("http://host/a.zip").unwrap();
    assert!(t.check_cancelled(false).is_ok());
    match t.check_cancelled(true) {
        Err(e) => assert!(e.is_cancelled()),
        Ok(()) => panic!("a signalled handle must end the transfer"),
    }
}

#[test]
fn non_success_statuses_carry_the_body_as_diagnostic() {
    let mut t = Transfer::begin("http://host/a.zip").unwrap();
    t.set_total(None);
    match t.on_status(500, "server broke".to_string()) {
        Err(ModError::HttpError(body)) => assert_eq!(body, "server broke"),
        _ => panic!("a 500 must fail the transfer"),
    }
}
