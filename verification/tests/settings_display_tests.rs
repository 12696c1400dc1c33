use grav_tray_rs::cli::{command, Command};
use grav_tray_rs::display::{
    content_height, freshness, info_text, is_double_press, is_due, picker_choice, picker_selection,
    picker_title,
    refresh_interval_label, shown_buckets, visible_groups,
};
use grav_tray_rs::quota::{QuotaBucket, QuotaGroup, QuotaSummary};
use grav_tray_rs::settings::{
    is_valid_refresh_interval, refresh_interval_at, refresh_interval_position, Settings,
    DEFAULT_REFRESH_INTERVAL, VALID_REFRESH_INTERVALS,
};

fn bucket(id: &str, disabled: Option<bool>) -> QuotaBucket {
    QuotaBucket {
        bucket_id: id.to_owned(),
        display_name: id.to_uppercase(),
        description: None,
        window: None,
        remaining_fraction: None,
        disabled,
        reset_time: None,
    }
}

fn group(name: &str, buckets: Vec<QuotaBucket>) -> QuotaGroup {
    QuotaGroup { display_name: name.to_owned(), description: None, buckets }
}

#[test]
fn settings_default_and_load() {
    let d = Settings::default();
    assert_eq!(d.refresh_interval_seconds, DEFAULT_REFRESH_INTERVAL);
    assert_eq!(d.menu_bar_quota, "");
    let loaded = Settings::load(None);
    assert_eq!(loaded.refresh_interval_seconds, 60);
    let kept = Settings::load(Some(Settings { refresh_interval_seconds: 300, menu_bar_quota: "G|b".to_owned() }));
    assert_eq!(kept.refresh_interval_seconds, 300);
    assert_eq!(kept.menu_bar_quota, "G|b");
    let fixed = Settings::load(Some(Settings { refresh_interval_seconds: 7, menu_bar_quota: String::new() }));
    assert_eq!(fixed.refresh_interval_seconds, 60);
    let again = Settings::load(Some(fixed));
    assert_eq!(again.refresh_interval_seconds, 60);
}

#[test]
fn refresh_intervals() {
    assert_eq!(VALID_REFRESH_INTERVALS, [30, 60, 300, 900]);
    assert!(is_valid_refresh_interval(900));
    assert!(!is_valid_refresh_interval(0));
    assert_eq!(refresh_interval_position(300), 2);
    assert_eq!(refresh_interval_position(12), 1);
    assert_eq!(refresh_interval_at(-1), Some(30));
    assert_eq!(refresh_interval_at(3), Some(900));
    assert_eq!(refresh_interval_at(4), None);
    assert_eq!(refresh_interval_label(30), "30 seconds");
    assert_eq!(refresh_interval_label(60), "1 minute");
    assert_eq!(refresh_interval_label(300), "5 minutes");
    assert_eq!(refresh_interval_label(900), "15 minutes");
    assert_eq!(refresh_interval_label(45), "Custom");
}

#[test]
fn freshness_labels() {
    assert_eq!(freshness(0), "Live");
    assert_eq!(freshness(9), "Live");
    assert_eq!(freshness(10), "10s ago");
    assert_eq!(freshness(59), "59s ago");
    assert_eq!(freshness(60), "1m ago");
    assert_eq!(freshness(3599), "59m ago");
}

#[test]
fn due_and_double_press() {
    assert!(is_due(None, 60));
    assert!(is_due(Some(60), 60));
    assert!(!is_due(Some(59), 60));
    assert!(!is_double_press(None));
    assert!(is_double_press(Some(499_999_999)));
    assert!(!is_double_press(Some(500_000_000)));
}

#[test]
fn info_texts() {
    assert_eq!(info_text(1).0, "General Settings");
    assert_eq!(info_text(2).0, "System Settings");
    assert_eq!(info_text(3).1, "⌘ 0   : Toggle Settings\n⌘ R   : Refresh Quota\n⌘ Q Q : Quit App");
}

#[test]
fn popover_heights() {
    assert_eq!(content_height(None, false), 320);
    let s = QuotaSummary {
        groups: vec![
            group("A", vec![bucket("a", None), bucket("b", None), bucket("c", Some(true))]),
            group("B", vec![bucket("d", Some(true))]),
            group("C", vec![bucket("e", None), bucket("f", None), bucket("g", None)]),
        ],
        description: None,
    };
    // 8 + 28 + 6 + (38 + 2 * 43) + 12 + (38 + 3 * 43) + 6 + 42 + 32 + 8
    assert_eq!(content_height(Some(&s), true), 433);
    assert_eq!(content_height(Some(&s), false), 391);
    let small = QuotaSummary { groups: vec![group("A", vec![bucket("a", None)])], description: None };
    assert_eq!(content_height(Some(&small), false), 320);
}

#[test]
fn picker_and_cards() {
    let s = QuotaSummary {
        groups: vec![
            group("A", vec![bucket("a", None), bucket("x", Some(true))]),
            group("B", vec![bucket("x", Some(true))]),
            group("A", vec![bucket("a", None)]),
        ],
        description: None,
    };
    assert_eq!(picker_title(&s.groups[0], &s.groups[0].buckets[0]), "A — A");
    assert_eq!(picker_selection(&s, "A|a"), 1);
    assert_eq!(picker_selection(&s, "B|x"), 0);
    assert_eq!(picker_choice(&s, -1).as_deref(), Some("A|a"));
    assert_eq!(picker_choice(&s, 1).as_deref(), Some("A|a"));
    assert_eq!(picker_choice(&s, 2), None);
    let names: Vec<&str> = visible_groups(&s).iter().map(|g| g.display_name.as_str()).collect();
    assert_eq!(names, vec!["A", "A"]);
    let ids: Vec<&str> = shown_buckets(&s.groups[0]).iter().map(|b| b.bucket_id.as_str()).collect();
    assert_eq!(ids, vec!["a"]);
}

#[test]
fn commands() {
    assert!(matches!(command(None), Command::Run));
    assert!(matches!(command(Some("--install")), Command::Install));
    assert!(matches!(command(Some("--uninstall")), Command::Uninstall));
    assert!(matches!(command(Some("--diagnose")), Command::Diagnose));
    assert!(matches!(command(Some("-h")), Command::Help));
    assert!(matches!(command(Some("--help")), Command::Help));
    assert!(matches!(command(Some("-V")), Command::Version));
    assert!(matches!(command(Some("--version")), Command::Version));
    assert!(matches!(command(Some("--nope")), Command::Invalid(ref a) if a == "--nope"));
}
