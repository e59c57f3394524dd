use sidecraft::logging::{resolve_log_dir, session_file_name, session_timestamp, stale_sessions, RETAINED_SESSIONS};
use sidecraft::environment::parse_environment_flag;

#[test]
fn the_log_directory_defaults_and_can_be_disabled() {
    assert_eq!(resolve_log_dir(None), Some("logs".to_string()));
    assert_eq!(resolve_log_dir(Some("   ")), Some("logs".to_string()));
    assert_eq!(resolve_log_dir(Some("custom/place")), Some("custom/place".to_string()));
    assert_eq!(resolve_log_dir(Some("off")), None);
    assert_eq!(resolve_log_dir(Some("OFF")), None);
    assert_eq!(resolve_log_dir(Some(" Off\n")), None);
    assert_eq!(resolve_log_dir(Some("\t logs/run \u{3000}")), Some("logs/run".to_string()));
}

#[test]
fn session_names_round_trip_their_timestamp() {
    assert_eq!(session_timestamp(&session_file_name(1_785_602_118)), Some(1_785_602_118));
    for foreign in ["sidecraft.toml", "sidecraft-.jsonl", "sidecraft-abc.jsonl", "sidecraft-123.log", "notes.jsonl"] {
        assert_eq!(session_timestamp(foreign), None, "{foreign}");
    }
}

#[test]
fn session_timestamps_parse_like_unsigned_integers() {
    assert_eq!(session_file_name(0), "sidecraft-0.jsonl");
    assert_eq!(session_timestamp("sidecraft-+42.jsonl"), Some(42));
    assert_eq!(session_timestamp("sidecraft-007.jsonl"), Some(7));
    assert_eq!(session_timestamp("sidecraft--1.jsonl"), None);
    assert_eq!(session_timestamp("sidecraft-+.jsonl"), None);
    assert_eq!(session_timestamp("sidecraft-18446744073709551615.jsonl"), Some(u64::MAX));
    assert_eq!(session_timestamp("sidecraft-18446744073709551616.jsonl"), None);
}

fn stale(names: &[String], keep: usize) -> Vec<String> {
    stale_sessions(&names.to_vec(), keep)
}

#[test]
fn retention_keeps_the_newest_and_ignores_foreign_files() {
    let names = [session_file_name(300), session_file_name(100), "worlds.txt".to_string(), session_file_name(200)];

    assert_eq!(stale(&names, 2), vec![session_file_name(100)]);
}

#[test]
fn retention_orders_by_timestamp_not_by_name_length() {
    let names = [session_file_name(1_000_000_000), session_file_name(999_999_999)];

    assert_eq!(stale(&names, 1), vec![session_file_name(999_999_999)]);
}

#[test]
fn retention_deletes_nothing_while_under_the_limit() {
    let names = (0..RETAINED_SESSIONS as u64).map(session_file_name).collect::<Vec<_>>();

    assert!(stale(&names, RETAINED_SESSIONS).is_empty());
}

#[test]
fn retention_breaks_timestamp_ties_by_name() {
    let names = ["sidecraft-+5.jsonl".to_string(), "sidecraft-05.jsonl".to_string(), session_file_name(9)];
    assert_eq!(stale(&names, 1), vec!["sidecraft-+5.jsonl".to_string(), "sidecraft-05.jsonl".to_string()]);
}

// Environment flags ----------------------------------------------------------------------------


#[test]
fn environment_flags_accept_only_explicit_true_values() {
    for value in ["1", "true", "TRUE", "yes", "YeS"] {
        assert!(parse_environment_flag(Some(value)));
    }
    for value in ["", "0", "false", "no", "enabled"] {
        assert!(!parse_environment_flag(Some(value)));
    }
    assert!(!parse_environment_flag(None));
}

#[test]
fn environment_flags_accept_common_enabled_values() {
    for value in ["1", "true", "TRUE", "yes"] {
        assert!(parse_environment_flag(Some(value)));
    }
}

#[test]
fn environment_flags_ignore_case_only_for_ascii_letters() {
    assert!(parse_environment_flag(Some("tRuE")));
    assert!(!parse_environment_flag(Some(" yes")));
    assert!(!parse_environment_flag(Some("yes\n")));
    assert!(!parse_environment_flag(Some("ｙes")));
    assert!(!parse_environment_flag(Some("truee")));
}
