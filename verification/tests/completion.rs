use ttyman::completion::{
    completion_script, CompletionShell, BASH_SESSIONS_FN, FISH_SESSIONS_FN, ZSH_SESSIONS_FN,
};

fn cli() -> clap::Command {
    clap::Command::new("ttyman")
        .subcommand(
            clap::Command::new("read").arg(
                clap::Arg::new("session")
                    .short('s')
                    .long("session")
                    .value_name("SESSION")
                    .help("Target session name"),
            ),
        )
        .subcommand(
            clap::Command::new("list").arg(
                clap::Arg::new("json")
                    .long("json")
                    .action(clap::ArgAction::SetTrue)
                    .help("Output as JSON"),
            ),
        )
}

fn generated(shell: clap_complete::Shell) -> String {
    let mut cmd = cli();
    let mut buf = Vec::new();
    clap_complete::generate(shell, &mut cmd, "ttyman", &mut buf);
    String::from_utf8(buf).unwrap()
}

#[test]
fn test_zsh_session_option_completes_sessions() {
    let out = completion_script(CompletionShell::Zsh, "a '--session=[x]:SESSION:_default' b :SESSION:_default");
    assert_eq!(
        out,
        format!("a '--session=[x]:SESSION:_ttyman_sessions' b :SESSION:_ttyman_sessions{ZSH_SESSIONS_FN}")
    );
}

#[test]
fn test_zsh_helper_text() {
    assert!(ZSH_SESSIONS_FN.starts_with("\n_ttyman_sessions() {\nlocal -a sessions\n"));
    assert!(ZSH_SESSIONS_FN.ends_with("_describe 'active session' sessions\n}\n"));
}

#[test]
fn test_bash_session_cases_complete_sessions() {
    let script = "            case \"${prev}\" in\n                --session)\n                    COMPREPLY=($(compgen -f \"${cur}\"))\n                    return 0\n                    ;;\n                -s)\n                    COMPREPLY=($(compgen -f \"${cur}\"))\n                    return 0\n                    ;;\n                --config)\n                    COMPREPLY=($(compgen -f \"${cur}\"))\n                    return 0\n                    ;;\n";
    let expected = "            case \"${prev}\" in\n                --session)\n                    _ttyman_sessions\n                    return 0\n                    ;;\n                -s)\n                    _ttyman_sessions\n                    return 0\n                    ;;\n                --config)\n                    COMPREPLY=($(compgen -f \"${cur}\"))\n                    return 0\n                    ;;\n";
    assert_eq!(completion_script(CompletionShell::Bash, script), format!("{expected}{BASH_SESSIONS_FN}"));
}

#[test]
fn test_fish_session_line_gets_sessions() {
    let script = "complete -c ttyman -n \"__fish_ttyman_using_subcommand read\" -s s -l session -d 'Target' -r\r\ncomplete -c ttyman -l json -d 'JSON'\ncomplete -c ttyman -l session-file -r\n";
    let expected = "complete -c ttyman -n \"__fish_ttyman_using_subcommand read\" -s s -l session -d 'Target' -r -f -a '(__fish_ttyman_sessions)'\ncomplete -c ttyman -l json -d 'JSON'\ncomplete -c ttyman -l session-file -r -f -a '(__fish_ttyman_sessions)'";
    assert_eq!(completion_script(CompletionShell::Fish, script), format!("{expected}{FISH_SESSIONS_FN}"));
}

#[test]
fn test_fish_keeps_lines_without_session_option() {
    let script = "a -r\nb -l session\n\nlast";
    assert_eq!(
        completion_script(CompletionShell::Fish, script),
        format!("a -r\nb -l session\n\nlast{FISH_SESSIONS_FN}")
    );
    assert_eq!(completion_script(CompletionShell::Fish, ""), FISH_SESSIONS_FN.to_string());
}

#[test]
fn test_other_shells_are_unchanged() {
    let script = "complete :SESSION:_default -l session -r\n";
    assert_eq!(completion_script(CompletionShell::Elvish, script), script);
    assert_eq!(completion_script(CompletionShell::PowerShell, script), script);
}

#[test]
fn test_generated_zsh_script() {
    let g = generated(clap_complete::Shell::Zsh);
    assert!(g.contains(":SESSION:_default"));
    let out = completion_script(CompletionShell::Zsh, &g);
    assert!(out.contains(":SESSION:_ttyman_sessions"));
    assert!(!out.contains(":SESSION:_default"));
    assert!(out.ends_with(ZSH_SESSIONS_FN));
}

#[test]
fn test_generated_bash_script() {
    let g = generated(clap_complete::Shell::Bash);
    let out = completion_script(CompletionShell::Bash, &g);
    assert!(out.contains("--session)\n                    _ttyman_sessions\n"));
    assert!(out.contains("-s)\n                    _ttyman_sessions\n"));
    assert!(!out.contains("--session)\n                    COMPREPLY=($(compgen -f"));
    assert!(out.ends_with(BASH_SESSIONS_FN));
}

#[test]
fn test_generated_fish_script() {
    let g = generated(clap_complete::Shell::Fish);
    let out = completion_script(CompletionShell::Fish, &g);
    let session_lines: Vec<&str> = out.lines().filter(|l| l.contains("-l session")).collect();
    assert_eq!(session_lines.len(), 1);
    assert!(session_lines[0].ends_with("-r -f -a '(__fish_ttyman_sessions)'"));
    assert!(out.ends_with(FISH_SESSIONS_FN));
    assert_eq!(out.lines().count(), g.lines().count() + FISH_SESSIONS_FN.lines().count() - 1);
}
