use ttyman::commands::shorten;
use ttyman::commands::{calculate_frame_micros, format_duration, is_current_session, session_age, use_tty};

#[test]
fn durations_as_listed() {
    assert_eq!(format_duration(0), "0s");
    assert_eq!(format_duration(42), "42s");
    assert_eq!(format_duration(600), "10m 00s");
    assert_eq!(format_duration(605), "10m 05s");
    assert_eq!(format_duration(3599), "59m 59s");
    assert_eq!(format_duration(3600), "1h 00m");
    assert_eq!(format_duration(11_220), "3h 07m");
    assert_eq!(format_duration(400_000), "111h 06m");
}

#[test]
fn session_age_and_current_marker() {
    assert_eq!(session_age(1000, 958), 42);
    assert_eq!(session_age(1000, 0), 0);
    assert_eq!(session_age(1000, 2000), 0);
    assert!(is_current_session(Some("dev"), "dev", 7));
    assert!(is_current_session(Some("7"), "dev", 7));
    assert!(!is_current_session(Some("other"), "dev", 7));
    assert!(!is_current_session(None, "dev", 7));
}

#[test]
fn frame_gaps_in_micros() {
    assert_eq!(calculate_frame_micros(100, 200, 101, 100), 999_900);
    assert_eq!(calculate_frame_micros(101, 100, 100, 200), -999_900);
    assert_eq!(calculate_frame_micros(5, 5, 5, 5), 0);
}

#[test]
fn terminal_mode_choice() {
    assert!(!use_tty("never", true));
    assert!(use_tty("always", false));
    assert!(use_tty("auto", true));
    assert!(!use_tty("auto", false));
}

#[test]
fn test_list_current_session_indicator_e2e() {
    let (name1, name2) = ("tcur1", "tcur2");
    assert!(!is_current_session(None, name1, 101));
    assert!(!is_current_session(None, name2, 102));
    assert!(is_current_session(Some(name1), name1, 101));
    assert!(!is_current_session(Some(name1), name2, 102));
}

fn entry(name: &str, command: &[&str], is_current: bool, is_alive: bool) -> ttyman::commands::SessionEntry {
    ttyman::commands::SessionEntry {
        name: name.to_string(),
        pid: 1071043,
        socket: format!("/run/user/1000/ttyman-{name}"),
        command: command.iter().map(|s| s.to_string()).collect(),
        term_size: (75, 113),
        clients: 1,
        age_secs: 42,
        is_alive,
        is_current,
    }
}

#[test]
fn list_table_rows() {
    let header = ttyman::commands::list_header();
    assert_eq!(
        header,
        format!("  {:<18} {:<8} {:<32} {:<10} {:<9} {:<10}", "NAME", "PID", "COMMAND", "SIZE", "CLIENTS", "AGE")
    );
    let row = ttyman::commands::list_row(&entry("dev", &["/usr/bin/zsh", "-i"], true, true));
    assert_eq!(
        row,
        format!("* {:<18} {:<8} {:<32} {:<10} {:<9} {:<10}", "dev", 1071043, "/usr/bin/zsh -i", "113x75", "1", "42s")
    );
    let long = entry("a-very-long-session-name", &["npm", "run", "dev", "--", "--port", "3000", "--host", "0.0.0.0"], false, false);
    let row = ttyman::commands::list_row(&long);
    assert_eq!(
        row,
        format!(
            "  {:<18} {:<8} {:<32} {:<10} {:<9} {:<10}",
            "a-very-long-se...", 1071043, "npm run dev -- --port 3000 -...", "113x75", "dead", "42s"
        )
    );
}

#[test]
fn shorten_cuts_at_bytes() {
    assert_eq!(shorten("short", 17, 14), "short");
    assert_eq!(shorten("exactly-17-bytes!", 17, 14), "exactly-17-bytes!");
    assert_eq!(shorten("eighteen-bytes-xyz", 17, 14), "eighteen-bytes...");
    assert_eq!(shorten("ééééééééé", 17, 14), "ééééééé...");
}
