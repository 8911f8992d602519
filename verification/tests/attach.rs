use ttyman::attach::{forget_session, menu_key_position, next_live_session, parse_menu_output, recent_sessions, touch_history, MenuAction};

#[test]
fn menu_protocol() {
    assert!(matches!(parse_menu_output("detach\n"), MenuAction::Detach));
    assert!(matches!(parse_menu_output("  DeTaCh  "), MenuAction::Detach));
    assert!(matches!(parse_menu_output("attach\n"), MenuAction::AttachNew));
    assert!(matches!(parse_menu_output("ATTACH"), MenuAction::AttachNew));
    assert!(matches!(parse_menu_output("attach worker\n"), MenuAction::AttachTo(n) if n == "worker"));
    assert!(matches!(parse_menu_output("attach   dev  "), MenuAction::AttachTo(n) if n == "dev"));
    assert!(matches!(parse_menu_output(""), MenuAction::Cancel));
    assert!(matches!(parse_menu_output("Attach worker"), MenuAction::Cancel));
    assert!(matches!(parse_menu_output("quit"), MenuAction::Cancel));
}

#[test]
fn menu_key_is_found() {
    assert_eq!(menu_key_position(b"ab\x1dcd\x1d", 0x1d), Some(2));
    assert_eq!(menu_key_position(b"abc", 0x1d), None);
    assert_eq!(menu_key_position(b"\x02", 0x02), Some(0));
}

#[test]
fn history_is_most_recent_last_without_duplicates() {
    let mut h: Vec<String> = Vec::new();
    touch_history(&mut h, "/r/ttyman-a");
    touch_history(&mut h, "/r/ttyman-b");
    touch_history(&mut h, "/r/ttyman-a");
    assert_eq!(h, vec!["/r/ttyman-b".to_string(), "/r/ttyman-a".to_string()]);
    assert_eq!(recent_sessions(&h), "a b");
    forget_session(&mut h, "/r/ttyman-a");
    assert_eq!(h, vec!["/r/ttyman-b".to_string()]);
    assert_eq!(recent_sessions(&Vec::new()), "");
}

#[test]
fn next_live_session_takes_most_recent_alive() {
    let mut history: Vec<String> = vec!["/r/ttyman-a".into(), "/r/ttyman-b".into(), "/r/ttyman-c".into(), "/r/ttyman-d".into()];
    let alive = |p: &str| p == "/r/ttyman-b" || p == "/r/ttyman-a";
    assert_eq!(next_live_session(&mut history, alive), Some("/r/ttyman-b".to_string()));
    assert_eq!(history, vec!["/r/ttyman-a".to_string()]);

    let mut history: Vec<String> = vec!["/r/ttyman-a".into(), "/r/ttyman-b".into()];
    assert_eq!(next_live_session(&mut history, |_: &str| false), None);
    assert!(history.is_empty());

    let mut empty: Vec<String> = Vec::new();
    assert_eq!(next_live_session(&mut empty, |_: &str| true), None);
}
