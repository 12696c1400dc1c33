use grav_tray_rs::quota::{QuotaBucket, QuotaGroup, QuotaSummary};
use grav_tray_rs::refresh::RefreshState;

fn summary(bucket_id: &str) -> QuotaSummary {
    QuotaSummary {
        groups: vec![QuotaGroup {
            display_name: "Gemini".to_owned(),
            description: None,
            buckets: vec![QuotaBucket {
                bucket_id: bucket_id.to_owned(),
                display_name: "5-hour".to_owned(),
                description: None,
                window: None,
                remaining_fraction: Some(0.75f64.to_bits()),
                disabled: None,
                reset_time: None,
            }],
        }],
        description: None,
    }
}

#[test]
fn refresh_starts_once_and_prefers_the_last_port() {
    let mut state = RefreshState::new();
    assert_eq!(state.begin_refresh(), Some(None));
    assert!(state.loading);
    assert_eq!(state.begin_refresh(), None);
    let mut selection = String::new();
    assert!(state.finish_refresh(Ok((summary("five"), 4242)), &mut selection));
    assert!(!state.loading);
    assert_eq!(selection, "Gemini|five");
    assert_eq!(state.connected_port, Some(4242));
    assert_eq!(state.begin_refresh(), Some(Some(4242)));
}

#[test]
fn failed_refresh_keeps_the_last_summary() {
    let mut state = RefreshState::new();
    let mut selection = "Gemini|five".to_owned();
    state.begin_refresh();
    state.finish_refresh(Ok((summary("five"), 1)), &mut selection);
    state.begin_refresh();
    assert!(!state.finish_refresh(Err("offline".to_owned()), &mut selection));
    assert_eq!(state.quota_error.as_deref(), Some("offline"));
    assert_eq!(state.summary.as_ref().map(|s| s.groups.len()), Some(1));
    assert_eq!(selection, "Gemini|five");
    assert!(state.has_error(false));
    state.begin_refresh();
    state.finish_refresh(Ok((summary("week"), 2)), &mut selection);
    assert_eq!(selection, "Gemini|week");
    assert!(state.quota_error.is_none());
    assert!(!state.has_error(false));
    assert!(state.has_error(true));
}
