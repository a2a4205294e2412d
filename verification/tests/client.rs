use romm_fuse::api::client::{RangeReply, RommClient};

#[test]
fn base_url_loses_trailing_slashes() {
    let c = RommClient::new("http://host:3000///", "tok");
    assert_eq!(c.url("/api/platforms"), "http://host:3000/api/platforms");
    assert_eq!(c.platforms_url(), "http://host:3000/api/platforms");
    assert_eq!(c.roms_url(), "http://host:3000/api/roms");
    let d = RommClient::new("http://host", "tok");
    assert_eq!(d.url("/x"), "http://host/x");
}

#[test]
fn auth_header_is_bearer_token() {
    let c = RommClient::new("http://h", "rmm_abc");
    assert_eq!(c.auth_header(), "Bearer rmm_abc");
}

#[test]
fn content_url_percent_encodes_file_name() {
    let c = RommClient::new("http://h/", "t");
    assert_eq!(
        c.content_url(12, "Super Mario Bros. (USA).nes"),
        "http://h/api/roms/12/content/Super%20Mario%20Bros.%20%28USA%29.nes"
    );
    assert_eq!(
        c.content_url(3, "a-b_c.d~e/é"),
        "http://h/api/roms/3/content/a-b_c.d~e%2F%C3%A9"
    );
}

#[test]
fn range_header_names_inclusive_bytes() {
    assert_eq!(RommClient::range_header(0, 262143), "bytes=0-262143");
}

#[test]
fn roms_query_lists_page_parameters() {
    let q = RommClient::roms_query(5, 20000, 10000);
    let want: Vec<(String, String)> = vec![
        ("platform_ids".to_string(), "5".to_string()),
        ("with_files".to_string(), "true".to_string()),
        ("limit".to_string(), "10000".to_string()),
        ("offset".to_string(), "20000".to_string()),
    ];
    assert_eq!(q, want);
}

#[test]
fn range_reply_by_status() {
    assert!(matches!(RommClient::range_reply(206), RangeReply::Partial));
    assert!(matches!(RommClient::range_reply(200), RangeReply::Whole));
    assert!(matches!(RommClient::range_reply(299), RangeReply::Whole));
    assert!(matches!(RommClient::range_reply(416), RangeReply::Failed));
    assert!(RommClient::status_ok(204));
    assert!(!RommClient::status_ok(301));
}

#[test]
fn paging_stops_at_total_or_empty_page() {
    let s = RommClient::page_step(0, 10000, 25000);
    assert_eq!((s.offset, s.done), (10000, false));
    let s = RommClient::page_step(20000, 5000, 25000);
    assert_eq!((s.offset, s.done), (25000, true));
    let s = RommClient::page_step(100, 0, 25000);
    assert_eq!((s.offset, s.done), (100, true));
}
