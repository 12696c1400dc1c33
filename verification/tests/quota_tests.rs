use grav_tray_rs::quota::{
    candidate_http_ports, enabled_buckets, fetch_quota, format_reset_duration, has_log_extension,
    http_port, newest_logs, reset_label_for, selected_fraction, selection_key, validate_selection,
    FetchEvent, FetchStep, LogFile, QuotaBucket, QuotaGroup, QuotaSummary, NO_REACHABLE_SESSION,
    NO_SESSIONS,
};

fn bucket(id: &str, fraction: Option<f64>, disabled: Option<bool>) -> QuotaBucket {
    QuotaBucket {
        bucket_id: id.to_owned(),
        display_name: format!("{id} window"),
        description: None,
        window: None,
        remaining_fraction: fraction.map(f64::to_bits),
        disabled,
        reset_time: None,
    }
}

fn group(name: &str, buckets: Vec<QuotaBucket>) -> QuotaGroup {
    QuotaGroup { display_name: name.to_owned(), description: None, buckets }
}

fn summary() -> QuotaSummary {
    QuotaSummary {
        groups: vec![
            group("Gemini", vec![bucket("five", Some(0.75), None), bucket("off", Some(0.1), Some(true))]),
            group("Empty", vec![bucket("gone", Some(0.2), Some(true))]),
            group("Partner", vec![bucket("week", Some(0.25), Some(false)), bucket("day", None, None)]),
        ],
        description: None,
    }
}

#[test]
fn extracts_http_port_from_lf_and_crlf_logs() {
    assert_eq!(
        http_port("before\nLanguage server listening on random port at 43123 for HTTP\nafter"),
        Some(43123)
    );
    assert_eq!(
        http_port("Language server listening on random port at 8080 for HTTP\r\n"),
        Some(8080)
    );
}

#[test]
fn rejects_malformed_or_non_http_port_lines() {
    assert_eq!(http_port("random port at 123 for HTTP"), None);
    assert_eq!(
        http_port("Language server listening on random port at 123 for gRPC"),
        None
    );
    assert_eq!(
        http_port(
            "Language server listening on random port at 55528 for HTTPS (gRPC)\n\
             Language server listening on random port at 55529 for HTTP"
        ),
        Some(55529)
    );
    assert_eq!(
        http_port("Language server listening on random port at nope for HTTP"),
        None
    );
}

#[test]
fn formats_reset_countdowns() {
    assert_eq!(format_reset_duration(-1), "Reset due");
    assert_eq!(format_reset_duration(20), "Resets in 1m");
    assert_eq!(format_reset_duration(90 * 60), "Resets in 1h 30m");
    assert_eq!(format_reset_duration(49 * 60 * 60), "Resets in 2d 1h");
}

#[test]
fn formats_whole_days_and_minutes() {
    assert_eq!(format_reset_duration(0), "Reset due");
    assert_eq!(format_reset_duration(3 * 24 * 60 * 60 + 59 * 60), "Resets in 3d");
    assert_eq!(format_reset_duration(59 * 60 + 59), "Resets in 59m");
    assert_eq!(format_reset_duration(2 * 60 * 60 + 5 * 60), "Resets in 2h 5m");
    assert_eq!(format_reset_duration(i64::MAX), "Resets in 106751991167300d 15h");
}

#[test]
fn port_edge_cases() {
    assert_eq!(http_port(""), None);
    assert_eq!(http_port("Language server listening on random port at 65535 for HTTP"), Some(65535));
    assert_eq!(http_port("Language server listening on random port at 65536 for HTTP"), None);
    assert_eq!(http_port("Language server listening on random port at 000080 for HTTP"), Some(80));
    assert_eq!(http_port("Language server listening on random port at 80 for HTTP\r"), None);
    assert_eq!(http_port("Language server listening on random port at 80 for HTTP extra"), None);
    assert_eq!(
        http_port("x Language server listening on random port at 7 for HTTP\nLanguage server listening on random port at 9 for HTTP"),
        Some(7)
    );
    assert_eq!(
        http_port("Language server listening on random port at 99999 for HTTP\nLanguage server listening on random port at 9 for HTTP"),
        Some(9)
    );
}

#[test]
fn announced_port_round_trips() {
    for port in [0u16, 1, 9, 10, 443, 8080, 55529, 65535] {
        let line = format!("Language server listening on random port at {port} for HTTP");
        assert_eq!(http_port(&line), Some(port));
    }
}

#[test]
fn lists_enabled_buckets_in_order() {
    let s = summary();
    let entries: Vec<(String, String)> = enabled_buckets(&s)
        .into_iter()
        .map(|(g, b)| (g.display_name.clone(), b.bucket_id.clone()))
        .collect();
    assert_eq!(
        entries,
        vec![
            ("Gemini".to_owned(), "five".to_owned()),
            ("Partner".to_owned(), "week".to_owned()),
            ("Partner".to_owned(), "day".to_owned()),
        ]
    );
}

#[test]
fn selection_keys_join_group_and_bucket() {
    let s = summary();
    assert_eq!(selection_key(&s.groups[2], &s.groups[2].buckets[0]), "Partner|week");
}

#[test]
fn selected_fraction_follows_selection_or_first_bucket() {
    let s = summary();
    assert_eq!(selected_fraction(&s, "Partner|week"), Some(0.25f64.to_bits()));
    assert_eq!(selected_fraction(&s, "Partner|day"), None);
    assert_eq!(selected_fraction(&s, "Gemini|off"), Some(0.75f64.to_bits()));
    assert_eq!(selected_fraction(&s, ""), Some(0.75f64.to_bits()));
    let empty = QuotaSummary { groups: vec![], description: None };
    assert_eq!(selected_fraction(&empty, "Partner|week"), None);
}

#[test]
fn validation_keeps_known_and_replaces_unknown_selections() {
    let s = summary();
    let mut kept = "Partner|day".to_owned();
    validate_selection(&s, &mut kept);
    assert_eq!(kept, "Partner|day");

    let mut replaced = "Gemini|off".to_owned();
    validate_selection(&s, &mut replaced);
    assert_eq!(replaced, "Gemini|five");
    let mut again = replaced.clone();
    validate_selection(&s, &mut again);
    assert_eq!(again, replaced);
    assert_eq!(selected_fraction(&s, &replaced), selected_fraction(&s, "Gemini|off"));

    let empty = QuotaSummary { groups: vec![group("Off", vec![bucket("x", None, Some(true))])], description: None };
    let mut cleared = "Off|x".to_owned();
    validate_selection(&empty, &mut cleared);
    assert_eq!(cleared, "");
}

#[test]
fn reset_labels_use_the_rfc3339_time() {
    let now = 1_704_067_200i64; // 2024-01-01T00:00:00Z
    let mut b = bucket("five", Some(0.5), None);
    assert_eq!(b.reset_label(now, 0), "Reset time unavailable");
    b.reset_time = Some("2024-01-01T01:30:00Z".to_owned());
    assert_eq!(b.reset_label(now, 0), "Resets in 1h 30m");
    b.reset_time = Some("2024-01-03T02:00:00+01:00".to_owned());
    assert_eq!(b.reset_label(now, 0), "Resets in 2d 1h");
    b.reset_time = Some("2023-12-31T23:59:00Z".to_owned());
    assert_eq!(b.reset_label(now, 0), "Reset due");
    b.reset_time = Some("2024-01-01T00:00:30Z".to_owned());
    assert_eq!(b.reset_label(now, 500_000_000), "Resets in 1m");
    b.reset_time = Some("tomorrow".to_owned());
    assert_eq!(b.reset_label(now, 0), "Reset time unavailable");
    assert_eq!(reset_label_for(None), "Reset time unavailable");
    assert_eq!(reset_label_for(Some(60)), "Resets in 1m");
}

#[test]
fn recognises_log_file_names() {
    assert!(has_log_extension("cli-2024.log"));
    assert!(has_log_extension("a.log"));
    assert!(has_log_extension("x..log"));
    assert!(!has_log_extension(".log"));
    assert!(!has_log_extension("a.log.gz"));
    assert!(!has_log_extension("log"));
    assert!(!has_log_extension("a.LOG"));
}

fn log(name: &str, modified: i128) -> LogFile {
    LogFile { file_name: name.to_owned(), modified_nanos: modified }
}

#[test]
fn picks_newest_log_files_first() {
    let files = vec![log("old.log", 1), log("notes.txt", 99), log("new.log", 50), log("mid.log", 10)];
    assert_eq!(newest_logs(&files), vec![2, 3, 0]);
    let many: Vec<LogFile> = (0..30).map(|i| log(&format!("{i}.log"), i as i128)).collect();
    let chosen = newest_logs(&many);
    assert_eq!(chosen, (10..30).rev().collect::<Vec<usize>>());
    assert!(newest_logs(&vec![]).is_empty());
}

#[test]
fn candidate_ports_are_distinct_and_in_order() {
    let line = |p: u16| Some(format!("Language server listening on random port at {p} for HTTP\n"));
    let headers = vec![line(4000), None, Some("nothing here".to_owned()), line(5000), line(4000), line(6000)];
    assert_eq!(candidate_http_ports(&headers), vec![4000, 5000, 6000]);
    assert!(candidate_http_ports(&vec![]).is_empty());
}

#[test]
fn search_prefers_the_last_port() {
    let (search, step) = fetch_quota(Some(7));
    assert!(matches!(step, FetchStep::TryPort(7)));
    let (_, step) = search.next(FetchEvent::Attempted(true));
    assert!(matches!(step, FetchStep::Done(Ok(7))));
}

#[test]
fn search_scans_logs_and_skips_the_failed_preferred_port() {
    let (search, _) = fetch_quota(Some(7));
    let (search, step) = search.next(FetchEvent::Attempted(false));
    assert!(matches!(step, FetchStep::ScanLogs));
    let (search, step) = search.next(FetchEvent::Scanned(vec![7, 8, 9]));
    assert!(matches!(step, FetchStep::TryPort(8)));
    let (search, step) = search.next(FetchEvent::Attempted(false));
    assert!(matches!(step, FetchStep::TryPort(9)));
    let (_, step) = search.next(FetchEvent::Attempted(true));
    assert!(matches!(step, FetchStep::Done(Ok(9))));
}

#[test]
fn search_errors() {
    let (search, step) = fetch_quota(None);
    assert!(matches!(step, FetchStep::ScanLogs));
    let (_, step) = search.next(FetchEvent::Scanned(vec![]));
    match step {
        FetchStep::Done(Err(e)) => assert_eq!(e, NO_SESSIONS),
        _ => panic!("expected an error"),
    }

    let (search, _) = fetch_quota(Some(3));
    let (search, _) = search.next(FetchEvent::Attempted(false));
    let (_, step) = search.next(FetchEvent::Scanned(vec![3]));
    match step {
        FetchStep::Done(Err(e)) => assert_eq!(e, NO_REACHABLE_SESSION),
        _ => panic!("expected an error"),
    }

    let (search, _) = fetch_quota(None);
    let (search, _) = search.next(FetchEvent::Scanned(vec![1]));
    let (_, step) = search.next(FetchEvent::Attempted(false));
    match step {
        FetchStep::Done(Err(e)) => assert_eq!(e, "No authenticated agy session is reachable. Open or restart agy."),
        _ => panic!("expected an error"),
    }
}
