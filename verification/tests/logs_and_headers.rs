use std::collections::HashMap;

use chrono::{Local, NaiveDate};
use m3u8_download::headers::{preprocess_headers, select_valid_headers, DownloadOptions};
use m3u8_download::logs::{
    format_log_date, get_today_log_file_name, is_expired_log, log_file_name, needs_rotation,
    today_log_date, whole_days,
};

#[test]
fn date_format_matches_chrono() {
    for (y, m, d) in [(2025, 4, 5), (999, 12, 31), (10000, 1, 1), (-5, 6, 7), (0, 1, 9), (1, 10, 10)] {
        let expected = NaiveDate::from_ymd_opt(y, m, d).unwrap().format("%Y-%m-%d").to_string();
        assert_eq!(format_log_date(y, m, d), expected);
    }
    assert_eq!(format_log_date(2025, 4, 5), "2025-04-05");
    assert_eq!(format_log_date(-5, 6, 7), "-0005-06-07");
    assert_eq!(format_log_date(12345, 1, 1), "+12345-01-01");
}

#[test]
fn log_names() {
    assert_eq!(log_file_name("2025-04-05"), "2025-04-05.log");
    let before = Local::now().format("%Y-%m-%d").to_string();
    let today = get_today_log_file_name();
    let date = today_log_date();
    let after = Local::now().format("%Y-%m-%d").to_string();
    // the clock is read several times; a day may turn in between
    assert!(today == format!("{}.log", before) || today == format!("{}.log", after));
    assert!(date == before || date == after);
}

#[test]
fn rotation_and_expiry() {
    assert!(!needs_rotation("2025-04-05", "2025-04-05"));
    assert!(needs_rotation("2025-04-05", "2025-04-06"));
    assert!(!is_expired_log(30));
    assert!(is_expired_log(31));
    assert!(!is_expired_log(-2));
}

#[test]
fn new_options_have_no_headers() {
    assert!(DownloadOptions::new().headers.is_empty());
}

#[test]
fn only_valid_headers_are_kept() {
    let mut opts = DownloadOptions::new();
    opts.headers.insert("User-Agent".to_string(), "Mozilla/5.0 (\u{e9})".to_string());
    opts.headers.insert("bad name".to_string(), "v".to_string());
    opts.headers.insert("Referer".to_string(), "a\nb".to_string());
    opts.headers.insert("X-Token".to_string(), "abc\tdef".to_string());
    opts.headers.insert("".to_string(), "x".to_string());
    let mut got = preprocess_headers(&opts.headers);
    got.sort();
    assert_eq!(
        got,
        vec![
            ("user-agent".to_string(), "Mozilla/5.0 (\u{e9})".to_string()),
            ("x-token".to_string(), "abc\tdef".to_string()),
        ]
    );
    for (n, v) in &got {
        assert!(reqwest::header::HeaderName::from_bytes(n.as_bytes()).is_ok());
        assert!(reqwest::header::HeaderValue::from_str(v).is_ok());
    }
}

#[test]
fn later_entry_of_a_name_wins() {
    let entries = vec![
        ("Foo".to_string(), "1".to_string()),
        ("X".to_string(), "\u{7f}".to_string()),
        ("foo".to_string(), "2".to_string()),
    ];
    assert_eq!(select_valid_headers(&entries), vec![("foo".to_string(), "2".to_string())]);
}

#[test]
fn case_variants_collapse_to_one_header() {
    let mut h = HashMap::new();
    h.insert("ACCEPT".to_string(), "a".to_string());
    h.insert("accept".to_string(), "b".to_string());
    let got = preprocess_headers(&h);
    assert_eq!(got.len(), 1);
    assert_eq!(got[0].0, "accept");
    assert!(got[0].1 == "a" || got[0].1 == "b");
}

#[test]
fn whole_days_truncate_like_chrono() {
    for s in [0i64, 1, 86399, 86400, 86401, -1, -86399, -86400, -86401, 31 * 86400, i64::MAX, i64::MIN] {
        let expected = chrono::TimeDelta::try_seconds(s).map(|d| d.num_days()).unwrap_or(s / 86400);
        assert_eq!(whole_days(s), expected, "{}", s);
        assert_eq!(whole_days(s), s / 86400);
    }
    assert!(!is_expired_log(whole_days(31 * 86400 - 1)));
    assert!(is_expired_log(whole_days(31 * 86400)));
}
