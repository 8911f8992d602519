use ttyman::ipc::session_name_message;
use ttyman::ipc::{
    default_socket_path, fallback_runtime_dir, locate_socket, resolve_socket, name_from_file_name, named_socket_path,
    parse_name_from_socket_path, parse_pid_from_socket_name, parse_u32, runtime_dir_from_env,
    socket_path_candidates, validate_session_name, SessionNameError,
};

#[test]
fn test_validate_session_name() {
    // Valid names
    assert!(validate_session_name("main").is_ok());
    assert!(validate_session_name("worker_1").is_ok());
    assert!(validate_session_name("dev-2.0").is_ok());
    assert!(validate_session_name("12345").is_ok());

    // Invalid names
    assert!(validate_session_name("").is_err()); // empty
    assert!(validate_session_name("a".repeat(65).as_str()).is_err()); // too long
    assert!(validate_session_name("-main").is_err()); // leading hyphen
    assert!(validate_session_name(".").is_err()); // dot
    assert!(validate_session_name("..").is_err()); // double dot
    assert!(validate_session_name("foo/bar").is_err()); // slash
    assert!(validate_session_name("foo\\bar").is_err()); // backslash
    assert!(validate_session_name("hello world").is_err()); // space
    assert!(validate_session_name("foo\nbar").is_err()); // newline
    assert!(validate_session_name("foo.sock").is_err()); // ends with .sock
    assert!(validate_session_name("foo;bar").is_err()); // shell metachar
    assert!(validate_session_name("foo$bar").is_err()); // shell metachar
}

#[test]
fn test_parse_name_from_socket_path() {
    assert_eq!(parse_name_from_socket_path("/tmp/ttyman-main"), "main");
    assert_eq!(parse_name_from_socket_path("/run/user/1000/ttyman-12345"), "12345");
    assert_eq!(parse_name_from_socket_path("ttyman-worker"), "worker");
}

#[test]
fn validate_session_name_reports_each_error() {
    assert_eq!(validate_session_name(""), Err(SessionNameError::Empty));
    assert_eq!(validate_session_name(&"a".repeat(65)), Err(SessionNameError::TooLong(65)));
    assert!(validate_session_name(&"a".repeat(64)).is_ok());
    assert_eq!(validate_session_name("-x"), Err(SessionNameError::LeadingHyphen));
    assert_eq!(validate_session_name(".."), Err(SessionNameError::Reserved));
    assert_eq!(validate_session_name("a.sock"), Err(SessionNameError::SockSuffix));
    assert_eq!(validate_session_name("a b"), Err(SessionNameError::InvalidCharacter));
    // 40 two-byte characters: too long in bytes, which is checked before the characters
    assert_eq!(validate_session_name(&"é".repeat(40)), Err(SessionNameError::TooLong(80)));
    assert_eq!(validate_session_name("é"), Err(SessionNameError::InvalidCharacter));
}

#[test]
fn parse_name_keeps_paths_without_prefix() {
    assert_eq!(parse_name_from_socket_path("/tmp/other"), "/tmp/other");
    assert_eq!(name_from_file_name("/x/ttyman-a", Some("ttyman-a")), "a");
    assert_eq!(name_from_file_name("/x/..", None), "/x/..");
}

#[test]
fn socket_paths_join_the_runtime_dir() {
    assert_eq!(default_socket_path("/run/user/1000", 42), "/run/user/1000/ttyman-42");
    assert_eq!(named_socket_path("/run/user/1000/", "dev"), "/run/user/1000/ttyman-dev");
    assert_eq!(named_socket_path("", "dev"), "ttyman-dev");
    assert_eq!(fallback_runtime_dir(1000), "/tmp/ttyman-1000");
    // a socket named for a session reads back as that session
    assert_eq!(parse_name_from_socket_path(&named_socket_path("/run/u", "dev")), "dev");
}

#[test]
fn runtime_dir_from_env_trims() {
    assert_eq!(runtime_dir_from_env(Some("  /run/user/5 \n")), Some("/run/user/5".to_string()));
    assert_eq!(runtime_dir_from_env(Some("   ")), None);
    assert_eq!(runtime_dir_from_env(None), None);
}

#[test]
fn parse_u32_follows_str_parse() {
    for s in ["0", "42", "+7", "007", "4294967295", "4294967296", "", "+", "-1", "1a", " 1"] {
        assert_eq!(parse_u32(s), s.parse::<u32>().ok(), "input {s:?}");
    }
}

#[test]
fn pid_from_socket_name() {
    assert_eq!(parse_pid_from_socket_name("/run/ttyman-1234"), Some(1234));
    assert_eq!(parse_pid_from_socket_name("/run/ttyman-dev"), None);
    assert_eq!(parse_pid_from_socket_name("/run/other-1234"), None);
}

#[test]
fn candidates_for_numeric_and_named_sessions() {
    let c = socket_path_candidates("/run/u", "/tmp/ttyman-1", "007").unwrap();
    assert_eq!(
        c,
        vec![
            "/run/u/ttyman-007".to_string(),
            "/run/u/ttyman-7".to_string(),
            "/tmp/ttyman-1/ttyman-007".to_string(),
            "/tmp/ttyman-1/ttyman-7".to_string(),
        ]
    );
    let c = socket_path_candidates("/run/u", "/tmp/ttyman-1", "dev").unwrap();
    assert_eq!(c, vec!["/run/u/ttyman-dev".to_string(), "/tmp/ttyman-1/ttyman-dev".to_string()]);
    assert_eq!(
        socket_path_candidates("/run/u", "/tmp/ttyman-1", "../x"),
        Err(SessionNameError::InvalidCharacter)
    );
}

#[test]
fn test_locate_socket_prefers_first_existing() {
    let present = |p: &str| p == "/tmp/ttyman-1000/ttyman-42";
    assert_eq!(
        locate_socket("/run/user/1000", "/tmp/ttyman-1000", "42", present),
        Ok("/tmp/ttyman-1000/ttyman-42".to_string())
    );
    let none = |_: &str| false;
    assert_eq!(
        locate_socket("/run/user/1000", "/tmp/ttyman-1000", "dev", none),
        Ok("/run/user/1000/ttyman-dev".to_string())
    );
    let both = |p: &str| p.ends_with("ttyman-dev");
    assert_eq!(
        locate_socket("/run/user/1000", "/tmp/ttyman-1000", "dev", both),
        Ok("/run/user/1000/ttyman-dev".to_string())
    );
    assert_eq!(
        locate_socket("/run/user/1000", "/tmp/ttyman-1000", "bad name", none),
        Err(SessionNameError::InvalidCharacter)
    );
}

#[test]
fn test_resolve_socket_target_and_environment() {
    let present = |p: &str| p == "/tmp/ttyman-1000/ttyman-dev";
    // An explicit target wins over the environment.
    assert_eq!(
        resolve_socket("/run/user/1000", "/tmp/ttyman-1000", Some("main"), Some("dev"), present),
        Ok(Some("/run/user/1000/ttyman-main".to_string()))
    );
    // The environment's session is taken only where its socket exists.
    assert_eq!(
        resolve_socket("/run/user/1000", "/tmp/ttyman-1000", None, Some("dev"), present),
        Ok(Some("/tmp/ttyman-1000/ttyman-dev".to_string()))
    );
    assert_eq!(
        resolve_socket("/run/user/1000", "/tmp/ttyman-1000", None, Some("other"), present),
        Ok(None)
    );
    // An invalid name in the environment is passed over; one given is refused.
    assert_eq!(
        resolve_socket("/run/user/1000", "/tmp/ttyman-1000", None, Some("-x"), present),
        Ok(None)
    );
    assert_eq!(
        resolve_socket("/run/user/1000", "/tmp/ttyman-1000", Some("-x"), None, present),
        Err(SessionNameError::LeadingHyphen)
    );
    assert_eq!(resolve_socket("/run/user/1000", "/tmp/ttyman-1000", None, None, present), Ok(None));
}

#[test]
fn test_session_name_validation_e2e() {
    let invalid_names = [
        "../traversal",
        "foo/bar",
        "foo\\bar",
        "has space",
        "foo.sock",
        "-leadingdash",
        ".",
        "..",
        "semicolon;rm",
        "$dollar",
    ];
    let none = |_: &str| false;
    for name in invalid_names {
        // `start --session=<name>` and `read --session=<name>` refuse the name.
        let err = resolve_socket("/run/user/1000", "/tmp/ttyman-1000", Some(name), None, none).unwrap_err();
        assert!(matches!(
            err,
            SessionNameError::InvalidCharacter
                | SessionNameError::LeadingHyphen
                | SessionNameError::Reserved
                | SessionNameError::SockSuffix
        ));
        assert_eq!(validate_session_name(name), Err(err));
    }
}

#[test]
fn test_read_outside_session() {
    // No session named and none in the environment: nothing is resolved, and
    // the client reports that it does not run inside a session.
    let present = |_: &str| true;
    assert_eq!(resolve_socket("/run/user/1000", "/tmp/ttyman-1000", None, None, present), Ok(None));
}

#[test]
fn session_name_messages() {
    assert_eq!(session_name_message("", SessionNameError::Empty), "Session name cannot be empty");
    assert_eq!(
        session_name_message("x", SessionNameError::TooLong(65)),
        "Session name 'x' is too long (max 64 characters, got 65)"
    );
    assert_eq!(
        session_name_message("-a", SessionNameError::LeadingHyphen),
        "Session name '-a' cannot start with a hyphen '-'"
    );
    assert_eq!(
        session_name_message("..", SessionNameError::Reserved),
        "Session name '..' is reserved and cannot be '.' or '..'"
    );
    assert_eq!(
        session_name_message("a.sock", SessionNameError::SockSuffix),
        "Session name 'a.sock' cannot end with '.sock'"
    );
    assert_eq!(
        session_name_message("a b", SessionNameError::InvalidCharacter),
        "Invalid session name 'a b': only ASCII alphanumeric characters, '_', '-', and '.' are allowed"
    );
}

#[test]
fn socket_paths_read_back_as_names() {
    assert_eq!(parse_name_from_socket_path(&named_socket_path("/run/user/1000", "dev")), "dev");
    assert_eq!(parse_name_from_socket_path(&named_socket_path("/run/user/1000/", "a.b-c")), "a.b-c");
    assert_eq!(parse_name_from_socket_path(&named_socket_path("", "w")), "w");
    assert_eq!(parse_name_from_socket_path(&default_socket_path("/tmp/ttyman-7", 4242)), "4242");
    // `Path::file_name` skips trailing separators and `.` components.
    assert_eq!(parse_name_from_socket_path("/r/ttyman-x/"), "x");
    assert_eq!(parse_name_from_socket_path("/r/ttyman-x/."), "x");
    assert_eq!(parse_name_from_socket_path("/r/ttyman-x/.."), "/r/ttyman-x/..");
    assert_eq!(parse_name_from_socket_path("/"), "/");
}
