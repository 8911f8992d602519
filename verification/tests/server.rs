use ttyman::server::{admit_peer, program_exit_code, stop_notice, StopSignal, CHILD_EXIT_GRACE_MS};
use ttyman::server::{rename_reply, rename_step, RenameStep};
use ttyman::ipc::{IpcRequest, SessionNameError};
use ttyman::server::{
    attach_window_size, exec_command, nested_decision, parse_ready_message,
    parse_started_session_name, plan_request, request_exceeds_limit, resize_applies,
    write_payload, NestedDecision, ReadyMessage, RequestPlan, MAX_IPC_LINE_BYTES,
};

#[test]
fn write_payload_wraps_and_submits() {
    assert_eq!(write_payload("echo hello", true, false), "echo hello\n");
    assert_eq!(write_payload("x", false, true), "\x1b[200~x\x1b[201~");
    assert_eq!(write_payload("x", true, true), "\x1b[200~x\x1b[201~\n");
    assert_eq!(write_payload("q", false, false), "q");
}

#[test]
fn request_size_limit() {
    assert!(request_exceeds_limit(MAX_IPC_LINE_BYTES, false));
    assert!(!request_exceeds_limit(MAX_IPC_LINE_BYTES, true));
    assert!(!request_exceeds_limit(MAX_IPC_LINE_BYTES - 1, false));
    assert_eq!(MAX_IPC_LINE_BYTES, 16 * 1024 * 1024);
}

#[test]
fn window_sizes() {
    assert!(resize_applies(80, 24));
    assert!(!resize_applies(0, 24));
    assert_eq!(attach_window_size(Some(120), Some(40)), Some((120, 40)));
    assert_eq!(attach_window_size(Some(120), None), None);
    assert_eq!(attach_window_size(Some(0), Some(40)), None);
}

#[test]
fn rename_request_trims_and_validates() {
    let plan = plan_request(IpcRequest::Rename { new_name: "  my_worker \n".to_string() });
    assert!(matches!(plan, RequestPlan::Rename { name, check: Ok(()) } if name == "my_worker"));
    let plan = plan_request(IpcRequest::Rename { new_name: "foo/bar".to_string() });
    assert!(matches!(plan, RequestPlan::Rename { name, check: Err(SessionNameError::InvalidCharacter) } if name == "foo/bar"));
    let plan = plan_request(IpcRequest::Rename { new_name: "   ".to_string() });
    assert!(matches!(plan, RequestPlan::Rename { name, check: Err(SessionNameError::Empty) } if name.is_empty()));
}

#[test]
fn request_plans() {
    assert!(matches!(plan_request(IpcRequest::Subscribe), RequestPlan::Subscribe));
    assert!(matches!(
        plan_request(IpcRequest::Attach { cols: Some(100), rows: Some(30) }),
        RequestPlan::Attach { size: Some((100, 30)) }
    ));
    assert!(matches!(
        plan_request(IpcRequest::Attach { cols: None, rows: Some(30) }),
        RequestPlan::Attach { size: None }
    ));
    assert!(matches!(
        plan_request(IpcRequest::Resize { cols: 80, rows: 24 }),
        RequestPlan::Resize { size: Some((80, 24)) }
    ));
    assert!(matches!(plan_request(IpcRequest::Resize { cols: 80, rows: 0 }), RequestPlan::Resize { size: None }));
    assert!(matches!(
        plan_request(IpcRequest::Read { lines: Some(5), all: false, with_color: true }),
        RequestPlan::Read { lines: Some(5), all: false, with_color: true }
    ));
    assert!(matches!(plan_request(IpcRequest::Redraw), RequestPlan::Redraw));
    assert!(matches!(
        plan_request(IpcRequest::Write { text: "ls".to_string(), enter: true, bracketed_paste: false }),
        RequestPlan::Inject { payload } if payload == "ls\n"
    ));
    assert!(matches!(plan_request(IpcRequest::Info), RequestPlan::Info));
    assert!(matches!(plan_request(IpcRequest::Ping), RequestPlan::Pong));
}

#[test]
fn exec_command_defaults_to_interactive_shell() {
    let (cmd, args) = exec_command(&[], "/bin/zsh");
    assert_eq!(cmd, "/bin/zsh");
    assert_eq!(args, vec!["/bin/zsh".to_string(), "-i".to_string()]);
    let given = vec!["npm".to_string(), "run".to_string(), "dev".to_string()];
    let (cmd, args) = exec_command(&given, "/bin/sh");
    assert_eq!(cmd, "npm");
    assert_eq!(args, given);
}

#[test]
fn ready_message_forms() {
    assert!(matches!(parse_ready_message("READY /run/u/ttyman-dev\n"), ReadyMessage::Ready(Some(p)) if p == "/run/u/ttyman-dev"));
    assert!(matches!(parse_ready_message("READY\n"), ReadyMessage::Ready(None)));
    assert!(matches!(parse_ready_message("Error: boom\n"), ReadyMessage::Failed(m) if m == "Error: boom\n"));
    assert!(matches!(parse_ready_message("  \n"), ReadyMessage::Silent));
}

#[test]
fn started_session_name_from_output() {
    assert_eq!(parse_started_session_name("Started session 'dev' in background.\n"), Some("dev".to_string()));
    assert_eq!(parse_started_session_name("noise\nStarted session ' 123 ' in background."), Some("123".to_string()));
    assert_eq!(parse_started_session_name("Started session 'dev"), None);
    assert_eq!(parse_started_session_name("nothing here"), None);
}

#[test]
fn nested_attach_decisions() {
    assert!(matches!(nested_decision(true, true, true), NestedDecision::AlreadyInSession));
    assert!(matches!(nested_decision(false, true, true), NestedDecision::Proceed));
    assert!(matches!(nested_decision(true, true, false), NestedDecision::NestedNotice));
    assert!(matches!(nested_decision(false, false, false), NestedDecision::Proceed));
}

#[test]
fn test_self_attach_prevention_e2e() {
    // `attach` (with or without `-s`) naming the session the client runs in.
    assert!(matches!(nested_decision(true, true, true), NestedDecision::AlreadyInSession));
    // `start` does not refuse it.
    assert!(matches!(nested_decision(false, true, true), NestedDecision::Proceed));
}

#[test]
fn rename_steps_and_replies() {
    let s = rename_step(true, true, true);
    assert!(matches!(s, RenameStep::AlreadyNamed));
    assert_eq!(rename_reply(&s, "dev"), "Session is already named 'dev'");
    let s = rename_step(false, true, true);
    assert!(matches!(s, RenameStep::TargetActive));
    assert_eq!(rename_reply(&s, "dev"), "Cannot rename session: target session 'dev' already exists and is active");
    assert!(matches!(rename_step(false, true, false), RenameStep::Move { remove_stale: true }));
    let s = rename_step(false, false, false);
    assert!(matches!(s, RenameStep::Move { remove_stale: false }));
    assert_eq!(rename_reply(&s, "dev"), "Renamed session to 'dev'");
}

#[test]
fn server_admission_and_endings() {
    assert!(admit_peer(Some(1000), 1000));
    assert!(!admit_peer(Some(0), 1000));
    assert!(!admit_peer(None, 1000));
    assert_eq!(stop_notice(StopSignal::Terminate), "\r\n[ttyman: Session terminated by SIGTERM]\r\n");
    assert_eq!(stop_notice(StopSignal::Interrupt), "\r\n[ttyman: Session interrupted by SIGINT]\r\n");
    assert_eq!(stop_notice(StopSignal::Hangup), "\r\n[ttyman: Session terminated by SIGHUP]\r\n");
    assert_eq!(program_exit_code(Some(3), 0), 3);
    assert_eq!(program_exit_code(None, 15), 143);
    assert_eq!(CHILD_EXIT_GRACE_MS, 200);
}
