use ttyman::terminal::{active_visible_rows, redraw_bytes, select_and_join};
use ttyman::Terminal;

#[test]
fn test_terminal_read_basic() {
    let mut term = Terminal::new(24, 80, 1000);
    term.process(b"Hello, world!\r\nSecond line\r\n");

    let text = term.read(None, false, false);
    assert!(text.contains("Hello, world!"));
    assert!(text.contains("Second line"));
}

#[test]
fn test_terminal_read_lines() {
    let mut term = Terminal::new(5, 80, 1000);
    for i in 1..=10 {
        term.process(format!("Line {i}\r\n").as_bytes());
    }

    let visible = term.read(None, false, false);
    assert!(visible.contains("Line 10"));

    let last_4 = term.read(Some(4), false, false);
    assert!(last_4.contains("Line 10"));

    let all = term.read(None, true, false);
    assert!(all.contains("Line 1\n"), "All output:\n{all}");
    assert!(all.contains("Line 10"));

    let mut term_large = Terminal::new(5, 80, 1000);
    for i in 1..=100 {
        term_large.process(format!("Line {i}\r\n").as_bytes());
    }
    let all_large = term_large.read(None, true, false);
    assert!(all_large.contains("Line 1\n"));
    assert!(all_large.contains("Line 50\n"));
    assert!(all_large.contains("Line 100"));
    assert_eq!(all_large.lines().count(), 100);
}

#[test]
fn test_terminal_redraw_payload() {
    let mut term = Terminal::new(24, 80, 1000);
    term.process(b"Hello, redraw!\r\n");
    let payload = term.redraw_payload();
    assert!(!payload.is_empty());
    let s = String::from_utf8_lossy(&payload);
    assert!(s.contains("\x1b[2J\x1b[H"));
    assert!(s.contains("Hello, redraw!"));
}

#[test]
fn test_terminal_read_trim_trailing_blank_lines() {
    let mut term = Terminal::new(84, 100, 1000);
    term.process(b"hayato@host:~$ ");

    let text = term.read(Some(10), false, false);
    assert_eq!(text, "hayato@host:~$");

    let visible = term.read(None, false, false);
    assert_eq!(visible, "hayato@host:~$");
}

#[test]
fn terminal_size_and_zero_resize() {
    let mut term = Terminal::new(0, 0, 10);
    assert_eq!(term.size(), (24, 80));
    term.set_size(30, 100);
    assert_eq!(term.size(), (30, 100));
    term.set_size(0, 50);
    assert_eq!(term.size(), (30, 100));
    term.process(b"\x1b[8;10;20t\x1b[?1049hhello\r\n");
    assert_eq!(term.size(), (30, 100));
    let _ = term.read(None, true, true);
    assert_eq!(term.size(), (30, 100));
}

#[test]
fn select_and_join_keeps_last_lines_trimmed() {
    let lines: Vec<String> = vec!["a  ".into(), "b".into(), "c\t".into(), "d".into()];
    assert_eq!(select_and_join(&lines, 24, None, true), "a\nb\nc\nd");
    assert_eq!(select_and_join(&lines, 24, Some(2), false), "c\nd");
    assert_eq!(select_and_join(&lines, 3, None, false), "b\nc\nd");
    assert_eq!(select_and_join(&lines, 3, Some(0), false), "");
    assert_eq!(select_and_join(&lines, 3, Some(10), false), "a\nb\nc\nd");
}

#[test]
fn active_rows_reach_content_or_cursor() {
    let rows: Vec<String> = vec!["x".into(), "".into(), "y ".into(), "  ".into(), "".into()];
    assert_eq!(active_visible_rows(&rows, 0, 5), 3);
    assert_eq!(active_visible_rows(&rows, 3, 5), 4);
    assert_eq!(active_visible_rows(&rows, 9, 5), 5);
    let blank: Vec<String> = vec!["".into(), " ".into()];
    assert_eq!(active_visible_rows(&blank, 0, 2), 1);
}

#[test]
fn redraw_bytes_layout() {
    let v = redraw_bytes(b"XY", 4, 11, false);
    assert_eq!(v, b"\x1b[0m\x1b[2J\x1b[HXY\x1b[5;12H\x1b[?25h".to_vec());
    let v = redraw_bytes(b"", 0, 0, true);
    assert_eq!(v, b"\x1b[0m\x1b[2J\x1b[H\x1b[1;1H\x1b[?25l".to_vec());
}

#[test]
fn read_selections_agree() {
    let mut term = Terminal::new(5, 40, 100);
    for i in 1..=12 {
        term.process(format!("row {i}   \r\n").as_bytes());
    }
    term.process(b"$ ");
    let everything = term.read(None, true, false);
    let lines: Vec<&str> = everything.split('\n').collect();
    assert_eq!(lines.len(), 13);
    assert!(lines.iter().all(|l| l.trim_end() == *l));
    for n in 0..20 {
        let k = n.min(lines.len());
        assert_eq!(term.read(Some(n), false, false), lines[lines.len() - k..].join("\n"));
    }
    let rows = term.size().0 as usize;
    assert_eq!(term.read(None, false, false), term.read(Some(rows), false, false));
    assert_eq!(term.read(None, true, false), everything);
}
